//! A serialized response head, parsed and brought into canonical form again,
//! is the same response.
use crate::canonical::CanonicalResponse;
use crate::error::RejectReason;
use crate::field::{all_value_bytes, canonical_name};
use crate::framing::{content_length, OtherCodings};
use crate::h1::canonicalize::{canonical_response, compacted, H1Context};
use crate::h1::parser::{crlf, response_head, status_line};
use crate::h1::request_round_trip::{
    framing_fields, lemma_chunked_alone, lemma_coding_name, lemma_connection_name,
    lemma_fields_text, lemma_framing_text, lemma_length_name, lemma_lines_text_append,
    lemma_number_trim, lemma_one_line, lemma_plain_values, lemma_values_append, lemma_values_none,
    lemma_values_one, lemma_wire_text_append, lemma_wire_text_empty, lemma_wire_text_one,
    lemma_written_names, wire_text, written,
};
use crate::h1::round_trip::{
    clean, fields_fit, lemma_lines_read_back, lines_text, message_lines, read_field, read_fields,
    wire_line, wire_ok,
};
use crate::h1::serialize::{
    bodyless, fields_text, framing_text, reason_text, response_connection_text,
    response_framing_text, response_head_text, status_text, BodySource,
};
use crate::known::{law_classify_name, KnownHeader};
use crate::num::{dec_text, law_decimal_round_trip, lemma_dec_text_len, pow10};
use crate::response::{no_body, response_framing, ResponseFraming};
use crate::scalar::{Method, WireVersion};
use crate::section::{values_of, Field};
use crate::strip::{hop_by_hop, stripped_response};
use crate::text::{ascii, lemma_ascii, lemma_find_is};
use vstd::prelude::*;

verus! {

/// The bytes of a reason phrase can stand in a status line.
proof fn lemma_reason(code: u16)
    ensures
        all_value_bytes(reason_text(code)),
        forall|i: int| 0 <= i < reason_text(code).len() ==> #[trigger] reason_text(code)[i] >= 0x20,
{
    match code {
        100 => {
            reveal_strlit("Continue");
            lemma_ascii("Continue"@);
        },
        101 => {
            reveal_strlit("Switching Protocols");
            lemma_ascii("Switching Protocols"@);
        },
        103 => {
            reveal_strlit("Early Hints");
            lemma_ascii("Early Hints"@);
        },
        200 => {
            reveal_strlit("OK");
            lemma_ascii("OK"@);
        },
        201 => {
            reveal_strlit("Created");
            lemma_ascii("Created"@);
        },
        202 => {
            reveal_strlit("Accepted");
            lemma_ascii("Accepted"@);
        },
        203 => {
            reveal_strlit("Non-Authoritative Information");
            lemma_ascii("Non-Authoritative Information"@);
        },
        204 => {
            reveal_strlit("No Content");
            lemma_ascii("No Content"@);
        },
        205 => {
            reveal_strlit("Reset Content");
            lemma_ascii("Reset Content"@);
        },
        206 => {
            reveal_strlit("Partial Content");
            lemma_ascii("Partial Content"@);
        },
        300 => {
            reveal_strlit("Multiple Choices");
            lemma_ascii("Multiple Choices"@);
        },
        301 => {
            reveal_strlit("Moved Permanently");
            lemma_ascii("Moved Permanently"@);
        },
        302 => {
            reveal_strlit("Found");
            lemma_ascii("Found"@);
        },
        303 => {
            reveal_strlit("See Other");
            lemma_ascii("See Other"@);
        },
        304 => {
            reveal_strlit("Not Modified");
            lemma_ascii("Not Modified"@);
        },
        305 => {
            reveal_strlit("Use Proxy");
            lemma_ascii("Use Proxy"@);
        },
        307 => {
            reveal_strlit("Temporary Redirect");
            lemma_ascii("Temporary Redirect"@);
        },
        308 => {
            reveal_strlit("Permanent Redirect");
            lemma_ascii("Permanent Redirect"@);
        },
        400 => {
            reveal_strlit("Bad Request");
            lemma_ascii("Bad Request"@);
        },
        401 => {
            reveal_strlit("Unauthorized");
            lemma_ascii("Unauthorized"@);
        },
        402 => {
            reveal_strlit("Payment Required");
            lemma_ascii("Payment Required"@);
        },
        403 => {
            reveal_strlit("Forbidden");
            lemma_ascii("Forbidden"@);
        },
        404 => {
            reveal_strlit("Not Found");
            lemma_ascii("Not Found"@);
        },
        405 => {
            reveal_strlit("Method Not Allowed");
            lemma_ascii("Method Not Allowed"@);
        },
        406 => {
            reveal_strlit("Not Acceptable");
            lemma_ascii("Not Acceptable"@);
        },
        407 => {
            reveal_strlit("Proxy Authentication Required");
            lemma_ascii("Proxy Authentication Required"@);
        },
        408 => {
            reveal_strlit("Request Timeout");
            lemma_ascii("Request Timeout"@);
        },
        409 => {
            reveal_strlit("Conflict");
            lemma_ascii("Conflict"@);
        },
        410 => {
            reveal_strlit("Gone");
            lemma_ascii("Gone"@);
        },
        411 => {
            reveal_strlit("Length Required");
            lemma_ascii("Length Required"@);
        },
        412 => {
            reveal_strlit("Precondition Failed");
            lemma_ascii("Precondition Failed"@);
        },
        413 => {
            reveal_strlit("Content Too Large");
            lemma_ascii("Content Too Large"@);
        },
        414 => {
            reveal_strlit("URI Too Long");
            lemma_ascii("URI Too Long"@);
        },
        415 => {
            reveal_strlit("Unsupported Media Type");
            lemma_ascii("Unsupported Media Type"@);
        },
        416 => {
            reveal_strlit("Range Not Satisfiable");
            lemma_ascii("Range Not Satisfiable"@);
        },
        417 => {
            reveal_strlit("Expectation Failed");
            lemma_ascii("Expectation Failed"@);
        },
        421 => {
            reveal_strlit("Misdirected Request");
            lemma_ascii("Misdirected Request"@);
        },
        422 => {
            reveal_strlit("Unprocessable Content");
            lemma_ascii("Unprocessable Content"@);
        },
        426 => {
            reveal_strlit("Upgrade Required");
            lemma_ascii("Upgrade Required"@);
        },
        429 => {
            reveal_strlit("Too Many Requests");
            lemma_ascii("Too Many Requests"@);
        },
        431 => {
            reveal_strlit("Request Header Fields Too Large");
            lemma_ascii("Request Header Fields Too Large"@);
        },
        451 => {
            reveal_strlit("Unavailable For Legal Reasons");
            lemma_ascii("Unavailable For Legal Reasons"@);
        },
        500 => {
            reveal_strlit("Internal Server Error");
            lemma_ascii("Internal Server Error"@);
        },
        501 => {
            reveal_strlit("Not Implemented");
            lemma_ascii("Not Implemented"@);
        },
        502 => {
            reveal_strlit("Bad Gateway");
            lemma_ascii("Bad Gateway"@);
        },
        503 => {
            reveal_strlit("Service Unavailable");
            lemma_ascii("Service Unavailable"@);
        },
        504 => {
            reveal_strlit("Gateway Timeout");
            lemma_ascii("Gateway Timeout"@);
        },
        505 => {
            reveal_strlit("HTTP Version Not Supported");
            lemma_ascii("HTTP Version Not Supported"@);
        },
        511 => {
            reveal_strlit("Network Authentication Required");
            lemma_ascii("Network Authentication Required"@);
        },
        _ => {},
    }
}

/// A status line.
pub open spec fn status_line_text(code: u16) -> Seq<u8> {
    ascii("HTTP/1.1 "@) + status_text(code) + seq![' ' as u8] + reason_text(code)
}

/// A written status line is parsed as its status and HTTP/1.1.
proof fn lemma_status_line(code: u16)
    requires
        100 <= code <= 599,
    ensures
        clean(status_line_text(code)),
        status_line(status_line_text(code)) == Ok::<(u16, WireVersion), RejectReason>(
            (code, WireVersion::Http11),
        ),
{
    let line = status_line_text(code);
    let reason = reason_text(code);
    reveal_strlit("HTTP/1.1 ");
    reveal_strlit("HTTP/1.1");
    lemma_ascii("HTTP/1.1 "@);
    lemma_ascii("HTTP/1.1"@);
    lemma_reason(code);
    let a: int = code as int / 100;
    let b: int = code as int / 10 % 10;
    let c: int = code as int % 10;
    assert(1 <= a <= 5 && 0 <= b <= 9 && 0 <= c <= 9 && code == 100 * a + 10 * b + c);
    assert(line[9] == 48 + a && line[10] == 48 + b && line[11] == 48 + c && line[12] == 32);
    assert forall|j: int| 0 <= j < line.len() implies #[trigger] line[j] >= 0x20 && (j < 8
        ==> line[j] > 0x20) by {
        if j >= 13 {
            assert(line[j] == reason[j - 13]);
        }
    }
    assert(line[8] == ' ' as u8);
    lemma_find_is(line, '\t' as u8, 0, line.len() as int);
    lemma_find_is(line, ' ' as u8, 0, 8);
    assert(line.take(8) =~= ascii("HTTP/1.1"@));
    assert(line.skip(9).skip(4) =~= reason);
}

/// The body source that a response's framing field is written from.
pub open spec fn framed_body(status: u16, method: Method, body: BodySource) -> BodySource {
    if bodyless(status, method) || method is Head && !(body is Exact) {
        BodySource::Empty
    } else {
        body
    }
}

/// The connection field of a response, as a field.
pub open spec fn response_connection(keep_alive: bool, version: WireVersion) -> Seq<Field> {
    if !keep_alive {
        seq![Field { name: ascii("Connection"@), value: ascii("close"@) }]
    } else if version is Http10 {
        seq![Field { name: ascii("Connection"@), value: ascii("keep-alive"@) }]
    } else {
        Seq::empty()
    }
}

/// All fields of a response head as they are written.
pub open spec fn response_written(
    res: CanonicalResponse,
    method: Method,
    body: BodySource,
    keep_alive: bool,
) -> Seq<Field> {
    framing_fields(framed_body(res.status@, method, body)) + response_connection(
        keep_alive,
        res.version,
    ) + written(res.headers@, res.headers@.len() as int, true)
}

proof fn lemma_keep_alive()
    ensures
        ascii("Connection: keep-alive\r\n"@) == ascii("Connection"@) + seq![':' as u8, ' ' as u8]
            + ascii("keep-alive"@) + crlf(),
        all_value_bytes(ascii("keep-alive"@)),
{
    reveal_strlit("Connection: keep-alive\r\n");
    reveal_strlit("Connection");
    reveal_strlit("keep-alive");
    lemma_ascii("Connection: keep-alive\r\n"@);
    lemma_ascii("Connection"@);
    lemma_ascii("keep-alive"@);
    assert(ascii("Connection: keep-alive\r\n"@) =~= ascii("Connection"@) + seq![
        ':' as u8,
        ' ' as u8,
    ] + ascii("keep-alive"@) + crlf());
}

proof fn lemma_response_connection(keep_alive: bool, version: WireVersion)
    ensures
        wire_text(response_connection(keep_alive, version)) == response_connection_text(
            keep_alive,
            version,
        ),
{
    lemma_written_names();
    lemma_keep_alive();
    let fields = response_connection(keep_alive, version);
    if fields.len() == 0 {
        lemma_wire_text_empty();
    } else {
        lemma_wire_text_one(fields[0]);
        assert(fields =~= seq![fields[0]]);
        assert(wire_line(fields[0]) + crlf() =~= response_connection_text(keep_alive, version));
    }
}

/// What is serialized is the lines of a response head.
proof fn lemma_response_lines(
    res: CanonicalResponse,
    method: Method,
    body: BodySource,
    keep_alive: bool,
)
    requires
        response_head_text(res, method, body, keep_alive) is Ok,
    ensures
        response_head_text(res, method, body, keep_alive)->Ok_0 == lines_text(
            message_lines(
                status_line_text(res.status@),
                response_written(res, method, body, keep_alive),
            ),
        ) + crlf(),
{
    let eff = framed_body(res.status@, method, body);
    let conn = response_connection(keep_alive, res.version);
    let w = written(res.headers@, res.headers@.len() as int, true);
    let all = response_written(res, method, body, keep_alive);
    lemma_written_names();
    lemma_fields_text(res.headers@, res.headers@.len() as int, true);
    lemma_wire_text_append(framing_fields(eff) + conn, w);
    lemma_wire_text_append(framing_fields(eff), conn);
    lemma_framing_text(eff);
    lemma_response_connection(keep_alive, res.version);
    assert(framing_text(eff) == response_framing_text(res.status@, method, body));
    let line = status_line_text(res.status@);
    let lines = Seq::new(all.len(), |i: int| wire_line(all[i]));
    lemma_lines_text_append(seq![line], lines);
    lemma_one_line(line);
    assert(message_lines(line, all) =~= seq![line] + lines);
    assert(response_head_text(res, method, body, keep_alive)->Ok_0 =~= line + crlf() + wire_text(
        all,
    ) + crlf());
}

/// Every field of a serialized response head may be written.
proof fn lemma_response_wire_ok(
    res: CanonicalResponse,
    method: Method,
    body: BodySource,
    keep_alive: bool,
)
    requires
        fields_text(res.headers@, res.headers@.len() as int, true) is Ok,
    ensures
        forall|k: int|
            0 <= k < response_written(res, method, body, keep_alive).len() ==> wire_ok(
                #[trigger] response_written(res, method, body, keep_alive)[k],
            ),
{
    let all = response_written(res, method, body, keep_alive);
    let eff = framed_body(res.status@, method, body);
    let conn = response_connection(keep_alive, res.version);
    let w = written(res.headers@, res.headers@.len() as int, true);
    let nf = framing_fields(eff).len() as int;
    let nc = conn.len() as int;
    lemma_fields_text(res.headers@, res.headers@.len() as int, true);
    lemma_length_name();
    lemma_coding_name();
    lemma_connection_name();
    lemma_plain_values();
    lemma_keep_alive();
    if let BodySource::Exact { len } = eff {
        lemma_number_trim(len as nat);
    }
    assert forall|k: int| 0 <= k < all.len() implies wire_ok(#[trigger] all[k]) by {
        if k < nf {
            assert(all[k] == framing_fields(eff)[k]);
        } else if k < nf + nc {
            assert(all[k] == conn[k - nf]);
        } else {
            assert(all[k] == w[k - nf - nc]);
        }
    }
}

/// The framing fields that are read of a response are the one that was
/// written.
proof fn lemma_response_values(
    res: CanonicalResponse,
    method: Method,
    body: BodySource,
    keep_alive: bool,
    k: KnownHeader,
)
    requires
        fields_text(res.headers@, res.headers@.len() as int, true) is Ok,
        k is ContentLength || k is TransferEncoding,
    ensures
        values_of(read_fields(response_written(res, method, body, keep_alive)), k) == match (
            framed_body(res.status@, method, body),
            k,
        ) {
            (BodySource::Exact { len }, KnownHeader::ContentLength) => seq![dec_text(len as nat)],
            (BodySource::Streaming, KnownHeader::TransferEncoding) => seq![ascii("chunked"@)],
            _ => Seq::empty(),
        },
{
    let eff = framed_body(res.status@, method, body);
    let fields = res.headers@;
    let n = fields.len() as int;
    let w = written(fields, n, true);
    let conn = response_connection(keep_alive, res.version);
    let a = read_fields(framing_fields(eff));
    let b = read_fields(conn);
    let c = read_fields(w);
    lemma_fields_text(fields, n, true);
    lemma_length_name();
    lemma_coding_name();
    lemma_connection_name();
    lemma_plain_values();
    law_classify_name(KnownHeader::ContentLength);
    law_classify_name(KnownHeader::TransferEncoding);
    law_classify_name(KnownHeader::Connection);
    if let BodySource::Exact { len } = eff {
        lemma_number_trim(len as nat);
    }
    assert(read_fields(response_written(res, method, body, keep_alive)) =~= a + b + c);
    lemma_values_append(a + b, c, k);
    lemma_values_append(a, b, k);
    if a.len() > 0 {
        assert(a =~= seq![read_field(framing_fields(eff)[0])]);
        lemma_values_one(read_field(framing_fields(eff)[0]), k);
    } else {
        lemma_values_none(a, k);
    }
    if b.len() > 0 {
        assert(b =~= seq![read_field(conn[0])]);
        lemma_values_one(read_field(conn[0]), k);
    } else {
        lemma_values_none(b, k);
    }
    assert forall|i: int| 0 <= i < c.len() implies (#[trigger] c[i]).known() != k by {
        let f = w[i];
        assert(canonical_name(f.name) == f.name && !hop_by_hop(f.known()));
        assert(c[i].known() == f.known());
    }
    lemma_values_none(c, k);
    let va = values_of(a, k);
    assert(va + Seq::<Seq<u8>>::empty() + Seq::<Seq<u8>>::empty() =~= va);
}

/// The framing that a response written from this body source is read with.
pub open spec fn framing_read(status: u16, method: Method, body: BodySource) -> ResponseFraming {
    if no_body(status, method) {
        ResponseFraming::Empty
    } else {
        match body {
            BodySource::Empty => ResponseFraming::UntilClose,
            BodySource::Exact { len } => if len == 0 {
                ResponseFraming::Empty
            } else {
                ResponseFraming::Exact { len }
            },
            BodySource::Streaming => ResponseFraming::Streamed,
        }
    }
}

/// The framing and the length that are read of a response.
proof fn lemma_response_framing(
    res: CanonicalResponse,
    method: Method,
    body: BodySource,
    keep_alive: bool,
    policy: OtherCodings,
)
    requires
        fields_text(res.headers@, res.headers@.len() as int, true) is Ok,
    ensures
        ({
            let g = read_fields(response_written(res, method, body, keep_alive));
            let lengths = values_of(g, KnownHeader::ContentLength);
            &&& response_framing(res.status@, method, WireVersion::Http11, g, policy) == Ok::<
                ResponseFraming,
                RejectReason,
            >(framing_read(res.status@, method, body))
            &&& match framed_body(res.status@, method, body) {
                BodySource::Exact { len } => lengths.len() == 1 && content_length(lengths[0])
                    == Ok::<u64, RejectReason>(len),
                _ => lengths.len() == 0,
            }
        }),
{
    lemma_response_values(res, method, body, keep_alive, KnownHeader::ContentLength);
    lemma_response_values(res, method, body, keep_alive, KnownHeader::TransferEncoding);
    match framed_body(res.status@, method, body) {
        BodySource::Empty => {},
        BodySource::Exact { len } => {
            lemma_number_trim(len as nat);
            law_decimal_round_trip(len as nat);
            reveal_with_fuel(pow10, 21);
            lemma_dec_text_len(len as nat, 20);
        },
        BodySource::Streaming => {
            lemma_chunked_alone(policy);
        },
    }
}

/// A serialized response head, parsed and brought into canonical form as the
/// answer to the same method, is the same response: the same status, framed as
/// it was written, with the length that was declared. The whole head is taken.
/// An answer without a body declares no length but the one that `HEAD` asks
/// for.
///
/// The head is within the reader's limits.
pub proof fn law_serialized_response_reads_back(
    res: CanonicalResponse,
    method: Method,
    body: BodySource,
    keep_alive: bool,
    ctx: H1Context,
)
    requires
        100 <= res.status@ <= 599,
        response_head_text(res, method, body, keep_alive) is Ok,
        status_line_text(res.status@).len() + 2 <= ctx.limits@.max_request_line_bytes,
        fields_fit(read_fields(response_written(res, method, body, keep_alive)), ctx.limits@),
        (response_head_text(res, method, body, keep_alive)->Ok_0).len() <= u32::MAX,
    ensures
        ({
            let text = response_head_text(res, method, body, keep_alive)->Ok_0;
            let parsed = response_head(text, ctx.limits@, ctx.underscores);
            let head = (parsed->Ok_0->Some_0).0;
            let again = canonical_response(head, text, method, ctx);
            &&& parsed matches Ok(Some(_))
            &&& (parsed->Ok_0->Some_0).1 == text.len()
            &&& head.status == res.status@
            &&& head.version is Http11
            &&& compacted(head.fields, text, ctx.underscores, head.version, ctx.limits@) == Ok::<
                Seq<Field>,
                RejectReason,
            >(read_fields(response_written(res, method, body, keep_alive)))
            &&& again is Ok
            &&& (again->Ok_0).0 == stripped_response(
                read_fields(response_written(res, method, body, keep_alive)),
            )
            &&& (again->Ok_0).1 == framing_read(res.status@, method, body)
            &&& (again->Ok_0).2 == match framed_body(res.status@, method, body) {
                BodySource::Exact { len } => Some(len),
                _ => None,
            }
        }),
{
    let all = response_written(res, method, body, keep_alive);
    lemma_response_lines(res, method, body, keep_alive);
    lemma_response_wire_ok(res, method, body, keep_alive);
    lemma_status_line(res.status@);
    lemma_lines_read_back(status_line_text(res.status@), all, ctx.limits@, ctx.underscores);
    lemma_response_framing(res, method, body, keep_alive, ctx.codings);
}

} // verus!
