//! What is written, byte by byte.
use crate::addr_text::node_text;
use crate::authority::{authority_text, AuthorityView};
use crate::canonical::{query_view, CanonicalRequest, CanonicalResponse};
use crate::error::RejectReason;
use crate::expect::{expect_action, ExpectAction};
use crate::forwarded::chain_of_section;
use crate::framing::{content_length, request_framing, OtherCodings, RequestFraming};
use crate::h1::canonicalize::{request_of, response_of, target_parts, H1Context};
use crate::h1::chunked::trailer_denied_spec;
use crate::h1::request_round_trip::{lemma_fields_text, wire_text, written};
use crate::h1::serialize::{
    emit_text, end_to_end_text, fields_text, framing_text, last_chunk_text, line_end, reason_text,
    request_head_text, request_start_text, response_head_text, target_form_text, trailer_lines,
    BodySource, ConnectionMode,
};
use crate::known::KnownHeader;
use crate::laws::names::{
    connection_name, header_only_name, law_field_kinds, law_one_named, law_none_named, none_named,
    one_named,
};
use crate::laws::stripping::{
    goes_downstream, goes_upstream, law_request_fields_kept, law_response_fields_kept,
};
use crate::net::SocketAddr;
use crate::num::dec_text;
use crate::path::TargetForm;
use crate::peer::{forwarded_text, nearest, walk, ForwardEmit};
use crate::response::{response_framing, ResponseFraming};
use crate::scalar::{Method, WireVersion};
use crate::section::{without, Field};
use crate::text::{ascii, lemma_ascii};
use vstd::prelude::*;

verus! {

// ---- request heads ----

/// CR LF.
pub open spec fn eol() -> Seq<u8> {
    seq![13u8, 10u8]
}

/// The framing field that is written for a body.
pub open spec fn framing_line(body: BodySource) -> Seq<u8> {
    match body {
        BodySource::Empty => Seq::empty(),
        BodySource::Exact { len } => ascii("Content-Length: "@) + dec_text(len as nat) + eol(),
        BodySource::Streaming => ascii("Transfer-Encoding: chunked"@) + eol(),
    }
}

/// The lines that tell about the client, where they are asked for.
pub open spec fn client_lines(req: CanonicalRequest, emit: ForwardEmit, local: SocketAddr) -> Seq<
    u8,
> {
    let authority = authority_text(req.authority@);
    let scheme = if req.scheme is Http {
        ascii("http"@)
    } else {
        ascii("https"@)
    };
    (if emit.emit_forwarded {
        ascii("Forwarded: "@) + forwarded_text(req.peer, local, req.scheme, req.authority@) + eol()
    } else {
        Seq::empty()
    }) + (if emit.emit_x_forwarded {
        ascii("X-Forwarded-For: "@) + node_text(req.peer.client, None) + eol() + ascii(
            "X-Forwarded-Proto: "@,
        ) + scheme + eol() + ascii("X-Forwarded-Host: "@) + authority + eol() + (
        match req.peer.client_port {
            Some(p) => ascii("X-Forwarded-Port: "@) + dec_text(p as nat) + eol(),
            None => Seq::empty(),
        })
    } else {
        Seq::empty()
    })
}

proof fn lemma_ends()
    ensures
        line_end() == eol(),
        ascii("Transfer-Encoding: chunked\r\n"@) == ascii("Transfer-Encoding: chunked"@) + eol(),
        ascii("Connection: close\r\n"@) == ascii("Connection: close"@) + eol(),
        ascii("Connection: keep-alive\r\n"@) == ascii("Connection: keep-alive"@) + eol(),
        ascii(" HTTP/1.1\r\n"@) == ascii(" HTTP/1.1"@) + eol(),
        ascii(" "@) == seq![32u8],
        ascii("0\r\n"@) == seq![48u8, 13u8, 10u8],
{
    reveal_strlit("\r\n");
    lemma_ascii("\r\n"@);
    assert(line_end() =~= eol());
    lemma_more_ends();
    reveal_strlit(" HTTP/1.1\r\n");
    reveal_strlit(" HTTP/1.1");
    reveal_strlit(" ");
    reveal_strlit("0\r\n");
    lemma_ascii(" HTTP/1.1\r\n"@);
    lemma_ascii(" HTTP/1.1"@);
    lemma_ascii(" "@);
    lemma_ascii("0\r\n"@);
    assert(ascii(" HTTP/1.1\r\n"@) =~= ascii(" HTTP/1.1"@) + eol());
    assert(ascii(" "@) =~= seq![32u8]);
    assert(ascii("0\r\n"@) =~= seq![48u8, 13u8, 10u8]);
}

proof fn lemma_more_ends()
    ensures
        ascii("Transfer-Encoding: chunked\r\n"@) == ascii("Transfer-Encoding: chunked"@) + eol(),
        ascii("Connection: close\r\n"@) == ascii("Connection: close"@) + eol(),
        ascii("Connection: keep-alive\r\n"@) == ascii("Connection: keep-alive"@) + eol(),
{
    reveal_strlit("Transfer-Encoding: chunked\r\n");
    reveal_strlit("Transfer-Encoding: chunked");
    reveal_strlit("Connection: close\r\n");
    reveal_strlit("Connection: close");
    reveal_strlit("Connection: keep-alive\r\n");
    reveal_strlit("Connection: keep-alive");
    lemma_ascii("Transfer-Encoding: chunked\r\n"@);
    lemma_ascii("Transfer-Encoding: chunked"@);
    lemma_ascii("Connection: close\r\n"@);
    lemma_ascii("Connection: close"@);
    lemma_ascii("Connection: keep-alive\r\n"@);
    lemma_ascii("Connection: keep-alive"@);
    assert(ascii("Transfer-Encoding: chunked\r\n"@) =~= ascii("Transfer-Encoding: chunked"@)
        + eol());
    assert(ascii("Connection: close\r\n"@) =~= ascii("Connection: close"@) + eol());
    assert(ascii("Connection: keep-alive\r\n"@) =~= ascii("Connection: keep-alive"@) + eol());
}

/// A request head is its request line, `Host`, the framing field of the body,
/// `Connection: close` where the connection is to be closed, what tells about
/// the client, the fields that are not left out, and an empty line.
pub proof fn law_request_head_text(
    req: CanonicalRequest,
    form: TargetForm,
    body: BodySource,
    mode: ConnectionMode,
    emit: ForwardEmit,
    local: SocketAddr,
)
    requires
        request_head_text(req, form, body, mode, emit, local) is Ok,
    ensures
        target_form_text(req, form) is Ok,
        request_head_text(req, form, body, mode, emit, local)->Ok_0 == req.method.bytes_spec()
            + seq![32u8] + target_form_text(req, form)->Ok_0 + ascii(" HTTP/1.1"@) + eol() + ascii(
            "Host: "@,
        ) + authority_text(req.authority@) + eol() + framing_line(body) + (if mode is Close {
            ascii("Connection: close"@) + eol()
        } else {
            Seq::empty()
        }) + client_lines(req, emit, local) + wire_text(
            written(req.headers@, req.headers@.len() as int, false),
        ) + eol(),
{
    let m = req.method.bytes_spec();
    let t = target_form_text(req, form)->Ok_0;
    let a = authority_text(req.authority@);
    lemma_ends();
    lemma_fields_text(req.headers@, req.headers@.len() as int, false);
    lemma_client_lines(req, emit, local);
    assert(framing_text(body) =~= framing_line(body));
    reveal(request_start_text);
    assert(request_start_text(m, t, req.authority@) =~= m + seq![32u8] + t + ascii(" HTTP/1.1"@)
        + eol() + ascii("Host: "@) + a + eol());
}

proof fn lemma_client_lines(req: CanonicalRequest, emit: ForwardEmit, local: SocketAddr)
    ensures
        emit_text(req, emit, local) == client_lines(req, emit, local),
{
    lemma_ends();
    reveal(emit_text);
}

/// The target that is written: the path and the query, `*`, or the host and
/// always a port, that of the scheme if no other is named. The absolute form is
/// not written.
pub proof fn law_written_targets(req: CanonicalRequest)
    ensures
        target_form_text(req, TargetForm::Origin) == Ok::<Seq<u8>, RejectReason>(
            match query_view(req.query) {
                Some(q) => req.path@ + seq![63u8] + q,
                None => req.path@,
            },
        ),
        target_form_text(req, TargetForm::Asterisk) == Ok::<Seq<u8>, RejectReason>(seq![42u8]),
        target_form_text(req, TargetForm::Authority) == Ok::<Seq<u8>, RejectReason>(
            req.authority@.host + seq![58u8] + dec_text(
                match req.authority@.port {
                    Some(p) => p as nat,
                    None => if req.scheme is Http {
                        80
                    } else {
                        443
                    },
                },
            ),
        ),
        target_form_text(req, TargetForm::Absolute) == Err::<Seq<u8>, RejectReason>(
            RejectReason::TargetFormInvalid,
        ),
{
    if let Some(q) = query_view(req.query) {
        assert(req.path@.push(63u8) + q =~= req.path@ + seq![63u8] + q);
    }
    let h = req.authority@.host;
    assert(h.push(58u8) =~= h + seq![58u8]);
}

/// A field that belongs to one connection refuses the head that would carry it,
/// in either direction.
pub proof fn law_connection_fields_refuse(fields: Seq<Field>, i: int, response: bool)
    requires
        0 <= i < fields.len(),
        connection_name(fields[i].name),
    ensures
        fields_text(fields, fields.len() as int, response) is Err,
{
    law_field_kinds(fields[i].name);
    lemma_refused(fields, i, fields.len() as int, response);
}

proof fn lemma_refused(fields: Seq<Field>, i: int, n: int, response: bool)
    requires
        0 <= i < n <= fields.len(),
        end_to_end_text(fields[i], response) is Err,
    ensures
        fields_text(fields, n, response) is Err,
    decreases n,
{
    if i < n - 1 {
        lemma_refused(fields, i, n - 1, response);
    }
}

// ---- responses ----

/// The phrases of the statuses that have one; every other has none.
pub proof fn law_reason_phrases(code: u16)
    ensures
        code == 100 ==> reason_text(code) == ascii("Continue"@),
        code == 101 ==> reason_text(code) == ascii("Switching Protocols"@),
        code == 103 ==> reason_text(code) == ascii("Early Hints"@),
        code == 200 ==> reason_text(code) == ascii("OK"@),
        code == 201 ==> reason_text(code) == ascii("Created"@),
        code == 202 ==> reason_text(code) == ascii("Accepted"@),
        code == 203 ==> reason_text(code) == ascii("Non-Authoritative Information"@),
        code == 204 ==> reason_text(code) == ascii("No Content"@),
        code == 205 ==> reason_text(code) == ascii("Reset Content"@),
        code == 206 ==> reason_text(code) == ascii("Partial Content"@),
        code == 300 ==> reason_text(code) == ascii("Multiple Choices"@),
        code == 301 ==> reason_text(code) == ascii("Moved Permanently"@),
        code == 302 ==> reason_text(code) == ascii("Found"@),
        code == 303 ==> reason_text(code) == ascii("See Other"@),
        code == 304 ==> reason_text(code) == ascii("Not Modified"@),
        code == 305 ==> reason_text(code) == ascii("Use Proxy"@),
        code == 307 ==> reason_text(code) == ascii("Temporary Redirect"@),
        code == 308 ==> reason_text(code) == ascii("Permanent Redirect"@),
        code == 400 ==> reason_text(code) == ascii("Bad Request"@),
        code == 401 ==> reason_text(code) == ascii("Unauthorized"@),
        code == 402 ==> reason_text(code) == ascii("Payment Required"@),
        code == 403 ==> reason_text(code) == ascii("Forbidden"@),
        code == 404 ==> reason_text(code) == ascii("Not Found"@),
        code == 405 ==> reason_text(code) == ascii("Method Not Allowed"@),
        code == 406 ==> reason_text(code) == ascii("Not Acceptable"@),
        code == 407 ==> reason_text(code) == ascii("Proxy Authentication Required"@),
        code == 408 ==> reason_text(code) == ascii("Request Timeout"@),
        code == 409 ==> reason_text(code) == ascii("Conflict"@),
        code == 410 ==> reason_text(code) == ascii("Gone"@),
        code == 411 ==> reason_text(code) == ascii("Length Required"@),
        code == 412 ==> reason_text(code) == ascii("Precondition Failed"@),
        code == 413 ==> reason_text(code) == ascii("Content Too Large"@),
        code == 414 ==> reason_text(code) == ascii("URI Too Long"@),
        code == 415 ==> reason_text(code) == ascii("Unsupported Media Type"@),
        code == 416 ==> reason_text(code) == ascii("Range Not Satisfiable"@),
        code == 417 ==> reason_text(code) == ascii("Expectation Failed"@),
        code == 421 ==> reason_text(code) == ascii("Misdirected Request"@),
        code == 422 ==> reason_text(code) == ascii("Unprocessable Content"@),
        code == 426 ==> reason_text(code) == ascii("Upgrade Required"@),
        code == 429 ==> reason_text(code) == ascii("Too Many Requests"@),
        code == 431 ==> reason_text(code) == ascii("Request Header Fields Too Large"@),
        code == 451 ==> reason_text(code) == ascii("Unavailable For Legal Reasons"@),
        code == 500 ==> reason_text(code) == ascii("Internal Server Error"@),
        code == 501 ==> reason_text(code) == ascii("Not Implemented"@),
        code == 502 ==> reason_text(code) == ascii("Bad Gateway"@),
        code == 503 ==> reason_text(code) == ascii("Service Unavailable"@),
        code == 504 ==> reason_text(code) == ascii("Gateway Timeout"@),
        code == 505 ==> reason_text(code) == ascii("HTTP Version Not Supported"@),
        code == 511 ==> reason_text(code) == ascii("Network Authentication Required"@),
        code != 100 && code != 101 && code != 103 && code != 200 && code != 201 && code != 202 && code != 203 && code != 204 && code != 205 && code != 206 && code != 300 && code != 301 && code != 302 && code != 303 && code != 304 && code != 305 && code != 307 && code != 308 && code != 400 && code != 401 && code != 402 && code != 403 && code != 404 && code != 405 && code != 406 && code != 407 && code != 408 && code != 409 && code != 410 && code != 411 && code != 412 && code != 413 && code != 414 && code != 415 && code != 416 && code != 417 && code != 421 && code != 422 && code != 426 && code != 429 && code != 431 && code != 451 && code != 500 && code != 501 && code != 502 && code != 503 && code != 504 && code != 505 && code != 511
            ==> reason_text(code) == Seq::<u8>::empty(),
{
}

/// A response head is its status line, the framing field where one may stand,
/// `Connection` where it says more than the version, the fields that are not
/// left out, and an empty line. No framing field stands in an answer that can
/// have no body; in answer to `HEAD` only a length does.
pub proof fn law_response_head_text(
    res: CanonicalResponse,
    method: Method,
    body: BodySource,
    keep_alive: bool,
)
    requires
        100 <= res.status@ <= 599,
        response_head_text(res, method, body, keep_alive) is Ok,
    ensures
        ({
            let s = res.status@;
            let digits = seq![
                (48 + s / 100) as u8,
                (48 + s / 10 % 10) as u8,
                (48 + s % 10) as u8,
            ];
            let bare = 100 <= s < 200 || s == 204 || s == 304 || method == Method::Connect && 200
                <= s < 300;
            response_head_text(res, method, body, keep_alive)->Ok_0 == ascii("HTTP/1.1 "@) + digits
                + seq![32u8] + reason_text(s) + eol() + (if bare || method == Method::Head
                && !(body is Exact) {
                Seq::empty()
            } else {
                framing_line(body)
            }) + (if !keep_alive {
                ascii("Connection: close"@) + eol()
            } else if res.version is Http10 {
                ascii("Connection: keep-alive"@) + eol()
            } else {
                Seq::empty()
            }) + wire_text(written(res.headers@, res.headers@.len() as int, true)) + eol()
        }),
{
    lemma_ends();
    lemma_fields_text(res.headers@, res.headers@.len() as int, true);
    assert(framing_text(body) =~= framing_line(body));
}

/// The end of a chunked body is `0`, the trailers and an empty line. A trailer
/// that only a header may be refuses it.
pub proof fn law_last_chunk_text(fields: Seq<Field>, i: int)
    ensures
        last_chunk_text(Seq::empty()) == Ok::<Seq<u8>, RejectReason>(
            seq![48u8, 13u8, 10u8, 13u8, 10u8],
        ),
        0 <= i < fields.len() && header_only_name(fields[i].name) ==> last_chunk_text(fields) is Err,
{
    lemma_ends();
    let none = Seq::<Field>::empty();
    assert(trailer_lines(none, 0) == Ok::<Seq<u8>, RejectReason>(Seq::empty()));
    assert(ascii("0\r\n"@) + Seq::<u8>::empty() + line_end() =~= seq![
        48u8,
        13u8,
        10u8,
        13u8,
        10u8,
    ]);
    if 0 <= i < fields.len() && header_only_name(fields[i].name) {
        law_field_kinds(fields[i].name);
        lemma_trailer_refused(fields, i, fields.len() as int);
    }
}

proof fn lemma_trailer_refused(fields: Seq<Field>, i: int, n: int)
    requires
        0 <= i < n <= fields.len(),
        trailer_denied_spec(fields[i].known()),
    ensures
        trailer_lines(fields, n) is Err,
    decreases n,
{
    if i < n - 1 {
        lemma_trailer_refused(fields, i, n - 1);
    }
}

// ---- canonical forms ----

/// What an accepted request is made of: the authority, the path and the query
/// of its target and `Host`, the scheme of the listener, the framing and the
/// expectation of its fields, the client that its chain names as far as it is
/// believed, and of its fields those that go on, without the expectation where
/// it is answered here.
pub proof fn law_request_parts(
    method: Method,
    target: Seq<u8>,
    version: WireVersion,
    fields: Seq<Field>,
    ctx: H1Context,
)
    requires
        request_of(method, target, version, fields, ctx) is Ok,
    ensures
        ({
            let (r, action, form) = request_of(method, target, version, fields, ctx)->Ok_0;
            let chain = chain_of_section(fields, ctx.limits@);
            let sent = if action is AnswerLocally {
                without(fields, KnownHeader::Expect)
            } else {
                fields
            };
            &&& target_parts(method, target, version, fields, ctx) == Ok::<
                (TargetForm, Seq<u8>, Option<Seq<u8>>, AuthorityView),
                RejectReason,
            >((form, r.path, r.query, r.authority))
            &&& r.scheme == ctx.scheme
            &&& r.version == version
            &&& Ok::<RequestFraming, RejectReason>(r.framing) == request_framing(method, version, fields, ctx.codings)
            &&& Ok::<ExpectAction, RejectReason>(action) == expect_action(fields, ctx.will_buffer_body)
            &&& chain is Ok
            &&& r.peer == walk(
                *ctx.trust,
                (chain->Ok_0).elements,
                (chain->Ok_0).elements.len() as int,
                nearest(ctx.socket_peer, ctx.proxy_proto, *ctx.trust),
            )
            &&& r.headers == sent.filter(|f: Field| goes_upstream(sent, f))
            &&& method == Method::Connect ==> r.framing is Empty
        }),
{
    let (r, action, form) = request_of(method, target, version, fields, ctx)->Ok_0;
    let sent = if action is AnswerLocally {
        without(fields, KnownHeader::Expect)
    } else {
        fields
    };
    law_request_fields_kept(sent);
}

/// What an accepted response is made of: its fields that go on, the framing,
/// and the length that it declares, if it does, whether or not a body follows.
pub proof fn law_response_parts(
    status: u16,
    version: WireVersion,
    fields: Seq<Field>,
    method: Method,
    codings: OtherCodings,
    value: Seq<u8>,
)
    requires
        response_of(status, version, fields, method, codings) is Ok,
    ensures
        ({
            let (kept, framing, declared) = response_of(
                status,
                version,
                fields,
                method,
                codings,
            )->Ok_0;
            &&& kept == fields.filter(|f: Field| goes_downstream(fields, f))
            &&& Ok::<ResponseFraming, RejectReason>(framing) == response_framing(status, method, version, fields, codings)
            &&& none_named(fields, ascii("content-length"@)) ==> declared == None::<u64>
            &&& one_named(fields, ascii("content-length"@), value) ==> declared is Some && Ok::<
                u64,
                RejectReason,
            >(declared->Some_0) == content_length(value)
        }),
{
    law_response_fields_kept(fields);
    if none_named(fields, ascii("content-length"@)) {
        law_none_named(fields, KnownHeader::ContentLength);
    }
    if one_named(fields, ascii("content-length"@), value) {
        law_one_named(fields, KnownHeader::ContentLength, value);
    }
}

/// Only the expectation is taken out where it is answered here.
pub proof fn law_without(fields: Seq<Field>)
    ensures
        without(fields, KnownHeader::Expect) == fields.filter(
            |f: Field| f.name != ascii("expect"@),
        ),
{
    let p = |f: Field| f.known() != KnownHeader::Expect;
    let q = |f: Field| f.name != ascii("expect"@);
    assert forall|f: Field| #[trigger] p(f) == q(f) by {
        crate::laws::names::law_known_names(f.name);
    }
    assert(p =~= q);
}

} // verus!
