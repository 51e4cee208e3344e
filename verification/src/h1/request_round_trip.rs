//! A serialized request head, parsed and brought into canonical form again,
//! is the same request.
use crate::authority::{
    authority_text, canonical_host, host_byte, law_authority_text_reads_back,
    law_parsed_authority, parse_authority, reconciled, AuthorityView,
};
use crate::canonical::{forbidden_in_request, query_view, request_fields_ok, CanonicalRequest};
use crate::error::RejectReason;
use crate::expect::{expect_action, ExpectAction};
use crate::field::{
    all_value_bytes, canonical_byte, canonical_name, law_trim_idempotent, law_valid_name,
    lemma_trim_id, name_byte, trim, UnderscorePolicy,
};
use crate::forwarded::{chain_of_section, law_no_lines_no_chain, no_chain, ChainView};
use crate::framing::{
    is_chunked, request_framing, te_result, te_scan, te_tokens, OtherCodings, RequestFraming,
};
use crate::h1::canonicalize::{canonical_request, compacted, names_method, H1Context};
use crate::h1::parser::{crlf, raw_name_byte_error, request_head};
use crate::h1::round_trip::{
    fields_fit, head_lines, lemma_head_reads_back, lines_text, read_field, read_fields,
    request_line_text, target_ok, wire_line, wire_name_ok, wire_ok,
};
use crate::h1::serialize::{
    connection_text, egress_error, emit_text, field_text, fields_text, framing_text, line_end,
    request_head_text, request_start_text, reserved, skipped, BodySource, ConnectionMode,
};
use crate::known::{law_classify_name, law_classified_name, KnownHeader};
use crate::net::SocketAddr;
use crate::num::{dec_text, law_decimal_round_trip, lemma_dec_text_len, pow10};
use crate::path::{
    law_normalized_path_reads_back, parse_path, path_bytes_error, TargetForm,
};
use crate::peer::ForwardEmit;
use crate::scalar::{all_tchar, method_error, Method, WireVersion};
use crate::section::{values_of, without, Field};
use crate::strip::{hop_by_hop, identity_field, stripped_ingress};
use crate::text::{ascii, is_digit, lemma_ascii, split};
use vstd::prelude::*;

verus! {

// ---- literals ----

/// The field names that the serializer writes itself, in canonical form.
pub proof fn lemma_written_names()
    ensures
        ascii("Host: "@) == ascii("Host"@) + seq![':' as u8, ' ' as u8],
        ascii("Content-Length: "@) == ascii("Content-Length"@) + seq![':' as u8, ' ' as u8],
        ascii("Transfer-Encoding: chunked\r\n"@) == ascii("Transfer-Encoding"@) + seq![
            ':' as u8,
            ' ' as u8,
        ] + ascii("chunked"@) + crlf(),
        ascii("Connection: close\r\n"@) == ascii("Connection"@) + seq![':' as u8, ' ' as u8]
            + ascii("close"@) + crlf(),
        line_end() == crlf(),
        ascii(": "@) == seq![':' as u8, ' ' as u8],
        ascii(" "@) == seq![' ' as u8],
        ascii(" HTTP/1.1\r\n"@) == seq![' ' as u8] + ascii("HTTP/1.1"@) + crlf(),
{
    reveal_strlit("Host: ");
    reveal_strlit("Host");
    reveal_strlit("Content-Length: ");
    reveal_strlit("Content-Length");
    reveal_strlit("Transfer-Encoding: chunked\r\n");
    reveal_strlit("Transfer-Encoding");
    reveal_strlit("chunked");
    reveal_strlit("Connection: close\r\n");
    reveal_strlit("Connection");
    reveal_strlit("close");
    reveal_strlit("\r\n");
    reveal_strlit(": ");
    reveal_strlit(" ");
    reveal_strlit(" HTTP/1.1\r\n");
    reveal_strlit("HTTP/1.1");
    lemma_ascii("Host: "@);
    lemma_ascii("Host"@);
    lemma_ascii("Content-Length: "@);
    lemma_ascii("Content-Length"@);
    lemma_ascii("Transfer-Encoding: chunked\r\n"@);
    lemma_ascii("Transfer-Encoding"@);
    lemma_ascii("chunked"@);
    lemma_ascii("Connection: close\r\n"@);
    lemma_ascii("Connection"@);
    lemma_ascii("close"@);
    lemma_ascii("\r\n"@);
    lemma_ascii(": "@);
    lemma_ascii(" "@);
    lemma_ascii(" HTTP/1.1\r\n"@);
    lemma_ascii("HTTP/1.1"@);
    assert(ascii("Host: "@) =~= ascii("Host"@) + seq![':' as u8, ' ' as u8]);
    assert(ascii("Content-Length: "@) =~= ascii("Content-Length"@) + seq![':' as u8, ' ' as u8]);
    assert(ascii("Transfer-Encoding: chunked\r\n"@) =~= ascii("Transfer-Encoding"@) + seq![
        ':' as u8,
        ' ' as u8,
    ] + ascii("chunked"@) + crlf());
    assert(ascii("Connection: close\r\n"@) =~= ascii("Connection"@) + seq![':' as u8, ' ' as u8]
        + ascii("close"@) + crlf());
    assert(line_end() =~= crlf());
    assert(ascii(": "@) =~= seq![':' as u8, ' ' as u8]);
    assert(ascii(" "@) =~= seq![' ' as u8]);
    assert(ascii(" HTTP/1.1\r\n"@) =~= seq![' ' as u8] + ascii("HTTP/1.1"@) + crlf());
}

proof fn lemma_host_name()
    ensures
        wire_name_ok(ascii("Host"@)),
        canonical_name(ascii("Host"@)) == KnownHeader::Host.name_spec(),
{
    reveal_strlit("Host");
    reveal_strlit("host");
    lemma_ascii("Host"@);
    lemma_ascii("host"@);
    assert(canonical_name(ascii("Host"@)) =~= ascii("host"@));
}

pub proof fn lemma_length_name()
    ensures
        wire_name_ok(ascii("Content-Length"@)),
        canonical_name(ascii("Content-Length"@)) == KnownHeader::ContentLength.name_spec(),
{
    reveal_strlit("Content-Length");
    reveal_strlit("content-length");
    lemma_ascii("Content-Length"@);
    lemma_ascii("content-length"@);
    assert(canonical_name(ascii("Content-Length"@)) =~= ascii("content-length"@));
}

pub proof fn lemma_coding_name()
    ensures
        wire_name_ok(ascii("Transfer-Encoding"@)),
        canonical_name(ascii("Transfer-Encoding"@)) == KnownHeader::TransferEncoding.name_spec(),
{
    reveal_strlit("Transfer-Encoding");
    reveal_strlit("transfer-encoding");
    lemma_ascii("Transfer-Encoding"@);
    lemma_ascii("transfer-encoding"@);
    assert(canonical_name(ascii("Transfer-Encoding"@)) =~= ascii("transfer-encoding"@));
}

pub proof fn lemma_connection_name()
    ensures
        wire_name_ok(ascii("Connection"@)),
        canonical_name(ascii("Connection"@)) == KnownHeader::Connection.name_spec(),
{
    reveal_strlit("Connection");
    reveal_strlit("connection");
    lemma_ascii("Connection"@);
    lemma_ascii("connection"@);
    assert(canonical_name(ascii("Connection"@)) =~= ascii("connection"@));
}

pub proof fn lemma_plain_values()
    ensures
        all_value_bytes(ascii("chunked"@)),
        trim(ascii("chunked"@)) == ascii("chunked"@),
        all_tchar(ascii("chunked"@)),
        ascii("chunked"@).len() == 7,
        crate::text::find(ascii("chunked"@), ',' as u8, 0) == 7,
        all_value_bytes(ascii("close"@)),
{
    reveal_strlit("chunked");
    reveal_strlit("close");
    lemma_ascii("chunked"@);
    lemma_ascii("close"@);
    lemma_trim_id(ascii("chunked"@));
    crate::text::lemma_find_is(ascii("chunked"@), ',' as u8, 0, 7);
}

// ---- what is written ----

/// The framing field for a body, as a field.
pub open spec fn framing_fields(body: BodySource) -> Seq<Field> {
    match body {
        BodySource::Empty => Seq::empty(),
        BodySource::Exact { len } => seq![
            Field { name: ascii("Content-Length"@), value: dec_text(len as nat) },
        ],
        BodySource::Streaming => seq![
            Field { name: ascii("Transfer-Encoding"@), value: ascii("chunked"@) },
        ],
    }
}

/// The connection field, as a field.
pub open spec fn connection_fields(mode: ConnectionMode) -> Seq<Field> {
    match mode {
        ConnectionMode::KeepAlive => Seq::empty(),
        ConnectionMode::Close => seq![
            Field { name: ascii("Connection"@), value: ascii("close"@) },
        ],
    }
}

/// The names that are left out of a head: `host`, which is written from the
/// authority, `te`, and what begins like a name that a proxy alone writes.
pub open spec fn left_out(name: Seq<u8>, response: bool) -> bool {
    ||| name == ascii("host"@)
    ||| name == ascii("te"@)
    ||| ascii("x-irontraffic-"@).is_prefix_of(name)
    ||| !response && ascii("x-envoy-"@).is_prefix_of(name)
    ||| !response && ascii("x-forwarded-"@).is_prefix_of(name)
}

/// The serializer leaves out exactly these names.
pub proof fn law_left_out(f: Field, response: bool)
    ensures
        (skipped(f.known()) || reserved(f.name, response)) == left_out(f.name, response),
{
    law_classify_name(KnownHeader::Host);
    law_classify_name(KnownHeader::Te);
    law_classified_name(f.name);
}

/// The end-to-end fields that are written of the first `n`.
pub open spec fn written(fields: Seq<Field>, n: int, response: bool) -> Seq<Field>
    decreases n,
{
    if n <= 0 {
        Seq::empty()
    } else if left_out(fields[n - 1].name, response) {
        written(fields, n - 1, response)
    } else {
        written(fields, n - 1, response).push(fields[n - 1])
    }
}

/// All fields of a request head as they are written.
pub open spec fn all_written(
    req: CanonicalRequest,
    body: BodySource,
    keep_alive: ConnectionMode,
) -> Seq<Field> {
    seq![Field { name: ascii("Host"@), value: authority_text(req.authority@) }] + framing_fields(
        body,
    ) + connection_fields(keep_alive) + written(req.headers@, req.headers@.len() as int, false)
}

/// Field lines as a text.
pub open spec fn wire_text(fields: Seq<Field>) -> Seq<u8> {
    lines_text(Seq::new(fields.len(), |i: int| wire_line(fields[i])))
}

pub proof fn lemma_lines_text_append(a: Seq<Seq<u8>>, b: Seq<Seq<u8>>)
    ensures
        lines_text(a + b) == lines_text(a) + lines_text(b),
    decreases b.len(),
{
    if b.len() == 0 {
        assert(a + b =~= a);
        assert(lines_text(a) + lines_text(b) =~= lines_text(a));
    } else {
        lemma_lines_text_append(a, b.drop_last());
        assert((a + b).drop_last() =~= a + b.drop_last());
        assert((a + b).last() == b.last());
        assert(lines_text(a + b) =~= lines_text(a) + lines_text(b));
    }
}

pub proof fn lemma_wire_text_append(a: Seq<Field>, b: Seq<Field>)
    ensures
        wire_text(a + b) == wire_text(a) + wire_text(b),
{
    let la = Seq::new(a.len(), |i: int| wire_line(a[i]));
    let lb = Seq::new(b.len(), |i: int| wire_line(b[i]));
    lemma_lines_text_append(la, lb);
    assert(Seq::new((a + b).len(), |i: int| wire_line((a + b)[i])) =~= la + lb);
}

pub proof fn lemma_wire_text_one(f: Field)
    ensures
        wire_text(seq![f]) == wire_line(f) + crlf(),
{
    let l = Seq::new(1nat, |i: int| wire_line(seq![f][i]));
    assert(l =~= seq![wire_line(f)]);
    lemma_one_line(wire_line(f));
}

pub proof fn lemma_one_line(line: Seq<u8>)
    ensures
        lines_text(seq![line]) == line + crlf(),
{
    assert(seq![line].drop_last() =~= Seq::<Seq<u8>>::empty());
    assert(lines_text(Seq::<Seq<u8>>::empty()) =~= Seq::<u8>::empty());
    assert(lines_text(seq![line]) =~= line + crlf());
}

proof fn lemma_regroup(
    a: Seq<u8>,
    b: Seq<u8>,
    f: Seq<u8>,
    c: Seq<u8>,
    x: Seq<u8>,
    z: Seq<u8>,
)
    ensures
        a + b + f + c + Seq::<u8>::empty() + x + z == a + (b + f + c + x) + z,
{
    assert(a + b + f + c + Seq::<u8>::empty() + x + z =~= a + (b + f + c + x) + z);
}

/// The text of end-to-end fields is the lines of those that are written, each
/// of which is acceptable and none hop-by-hop.
pub proof fn lemma_fields_text(fields: Seq<Field>, n: int, response: bool)
    requires
        0 <= n <= fields.len(),
        fields_text(fields, n, response) is Ok,
    ensures
        fields_text(fields, n, response)->Ok_0 == wire_text(written(fields, n, response)),
        forall|i: int|
            0 <= i < n ==> !hop_by_hop((#[trigger] fields[i]).known()),
        forall|i: int|
            0 <= i < written(fields, n, response).len() ==> {
                let f = #[trigger] written(fields, n, response)[i];
                &&& wire_ok(f)
                &&& !skipped(f.known())
                &&& !hop_by_hop(f.known())
                &&& canonical_name(f.name) == f.name
                &&& fields.contains(f)
            },
    decreases n,
{
    lemma_written_names();
    if n > 0 {
        let f = fields[n - 1];
        lemma_fields_text(fields, n - 1, response);
        let w = written(fields, n - 1, response);
        law_left_out(f, response);
        if skipped(f.known()) || reserved(f.name, response) {
            assert(fields_text(fields, n, response)->Ok_0 =~= wire_text(w));
        } else {
            lemma_wire_text_append(w, seq![f]);
            lemma_wire_text_one(f);
            assert(w.push(f) =~= w + seq![f]);
            assert(field_text(f) =~= wire_line(f) + crlf());
            lemma_valid_field(f);
            assert forall|i: int| 0 <= i < written(fields, n, response).len() implies ({
                let g = #[trigger] written(fields, n, response)[i];
                &&& wire_ok(g)
                &&& !skipped(g.known())
                &&& !hop_by_hop(g.known())
                &&& canonical_name(g.name) == g.name
                &&& fields.contains(g)
            }) by {
                if i < w.len() {
                    assert(written(fields, n, response)[i] == w[i]);
                } else {
                    assert(written(fields, n, response)[i] == fields[n - 1]);
                }
            }
        }
    } else {
        assert(Seq::new(0nat, |i: int| wire_line(written(fields, n, response)[i])) =~= Seq::<
            Seq<u8>,
        >::empty());
        assert(wire_text(written(fields, n, response)) =~= Seq::<u8>::empty());
    }
}

/// A field that may be written has a name in canonical form.
pub proof fn lemma_valid_field(f: Field)
    requires
        egress_error(f) is None,
    ensures
        wire_ok(f),
        canonical_name(f.name) == f.name,
{
    law_valid_name(f.name);
    assert forall|i: int| 0 <= i < f.name.len() implies raw_name_byte_error(
        #[trigger] f.name[i],
        UnderscorePolicy::Reject,
    ) is None && canonical_byte(f.name[i]) == f.name[i] by {
        assert(name_byte(f.name[i]));
    }
    assert(canonical_name(f.name) =~= f.name);
}

/// What is serialized is the lines of a head.
proof fn lemma_serialized_lines(
    req: CanonicalRequest,
    body: BodySource,
    keep_alive: ConnectionMode,
    emit: ForwardEmit,
    local: SocketAddr,
)
    requires
        !emit.emit_forwarded,
        !emit.emit_x_forwarded,
        request_head_text(req, TargetForm::Origin, body, keep_alive, emit, local) is Ok,
    ensures
        request_head_text(req, TargetForm::Origin, body, keep_alive, emit, local)->Ok_0
            == lines_text(
            head_lines(
                req.method.bytes_spec(),
                req.target_spec(),
                all_written(req, body, keep_alive),
            ),
        ) + crlf(),
{
    let method = req.method.bytes_spec();
    let target = req.target_spec();
    let host = Field { name: ascii("Host"@), value: authority_text(req.authority@) };
    let w = written(req.headers@, req.headers@.len() as int, false);
    let all = all_written(req, body, keep_alive);
    lemma_written_names();
    lemma_fields_text(req.headers@, req.headers@.len() as int, false);
    // The fields, one group after the other.
    lemma_wire_text_append(seq![host] + framing_fields(body) + connection_fields(keep_alive), w);
    lemma_wire_text_append(seq![host] + framing_fields(body), connection_fields(keep_alive));
    lemma_wire_text_append(seq![host], framing_fields(body));
    lemma_wire_text_one(host);
    lemma_framing_text(body);
    lemma_connection_text(keep_alive);
    assert(wire_text(all) == wire_line(host) + crlf() + framing_text(body) + connection_text(
        keep_alive,
    ) + wire_text(w));
    // The request line before them.
    let line = request_line_text(method, target);
    let lines = Seq::new(all.len(), |i: int| wire_line(all[i]));
    lemma_lines_text_append(seq![line], lines);
    lemma_one_line(line);
    assert(head_lines(method, target, all) =~= seq![line] + lines);
    lemma_start_text(method, target, req.authority@);
    lemma_no_emit(req, emit, local);
    lemma_regroup(
        line + crlf(),
        wire_line(host) + crlf(),
        framing_text(body),
        connection_text(keep_alive),
        wire_text(w),
        crlf(),
    );
}

proof fn lemma_start_text(method: Seq<u8>, target: Seq<u8>, authority: AuthorityView)
    ensures
        request_start_text(method, target, authority) == request_line_text(method, target) + crlf()
            + (wire_line(Field { name: ascii("Host"@), value: authority_text(authority) })
            + crlf()),
{
    reveal(request_start_text);
    lemma_written_names();
    assert(request_start_text(method, target, authority) =~= request_line_text(method, target)
        + crlf() + (wire_line(Field { name: ascii("Host"@), value: authority_text(authority) })
        + crlf()));
}

proof fn lemma_no_emit(req: CanonicalRequest, emit: ForwardEmit, local: SocketAddr)
    requires
        !emit.emit_forwarded,
        !emit.emit_x_forwarded,
    ensures
        emit_text(req, emit, local) == Seq::<u8>::empty(),
{
    reveal(emit_text);
    assert(emit_text(req, emit, local) =~= Seq::<u8>::empty());
}

pub proof fn lemma_framing_text(body: BodySource)
    ensures
        wire_text(framing_fields(body)) == framing_text(body),
{
    lemma_written_names();
    match body {
        BodySource::Empty => {
            lemma_wire_text_empty();
        },
        BodySource::Exact { len } => {
            let f = Field { name: ascii("Content-Length"@), value: dec_text(len as nat) };
            lemma_wire_text_one(f);
            assert(wire_line(f) + crlf() =~= framing_text(body));
        },
        BodySource::Streaming => {
            let f = Field { name: ascii("Transfer-Encoding"@), value: ascii("chunked"@) };
            lemma_wire_text_one(f);
            assert(wire_line(f) + crlf() =~= framing_text(body));
        },
    }
}

proof fn lemma_connection_text(mode: ConnectionMode)
    ensures
        wire_text(connection_fields(mode)) == connection_text(mode),
{
    lemma_written_names();
    match mode {
        ConnectionMode::KeepAlive => {
            lemma_wire_text_empty();
        },
        ConnectionMode::Close => {
            let f = Field { name: ascii("Connection"@), value: ascii("close"@) };
            lemma_wire_text_one(f);
            assert(wire_line(f) + crlf() =~= connection_text(mode));
        },
    }
}

pub proof fn lemma_wire_text_empty()
    ensures
        wire_text(Seq::<Field>::empty()) == Seq::<u8>::empty(),
{
    assert(Seq::new(0nat, |i: int| wire_line(Seq::<Field>::empty()[i])) =~= Seq::<
        Seq<u8>,
    >::empty());
}

// ---- what is read ----

pub proof fn lemma_values_append(a: Seq<Field>, b: Seq<Field>, k: KnownHeader)
    ensures
        values_of(a + b, k) == values_of(a, k) + values_of(b, k),
    decreases b.len(),
{
    if b.len() == 0 {
        assert(a + b =~= a);
        assert(values_of(a, k) + values_of(b, k) =~= values_of(a, k));
    } else {
        lemma_values_append(a, b.drop_last(), k);
        assert((a + b).drop_last() =~= a + b.drop_last());
        assert((a + b).last() == b.last());
        assert(values_of(a + b, k) =~= values_of(a, k) + values_of(b, k));
    }
}

pub proof fn lemma_values_none(fields: Seq<Field>, k: KnownHeader)
    requires
        forall|i: int| 0 <= i < fields.len() ==> (#[trigger] fields[i]).known() != k,
    ensures
        values_of(fields, k) == Seq::<Seq<u8>>::empty(),
    decreases fields.len(),
{
    if fields.len() > 0 {
        let rest = fields.drop_last();
        assert forall|i: int| 0 <= i < rest.len() implies (#[trigger] rest[i]).known() != k by {
            assert(fields[i].known() != k);
        }
        assert(fields[fields.len() - 1].known() != k);
        lemma_values_none(rest, k);
    }
}

pub proof fn lemma_values_one(f: Field, k: KnownHeader)
    ensures
        values_of(seq![f], k) == if f.known() == k {
            seq![f.value]
        } else {
            Seq::empty()
        },
{
    assert(seq![f].drop_last() =~= Seq::<Field>::empty());
    assert(values_of(Seq::<Field>::empty(), k) =~= Seq::<Seq<u8>>::empty());
    assert(values_of(seq![f], k) =~= if f.known() == k {
        seq![f.value]
    } else {
        Seq::empty()
    });
}

/// An `expect` field is never left out.
proof fn lemma_expect_written(f: Field)
    requires
        f.known() is Expect,
    ensures
        !skipped(f.known()),
        !reserved(f.name, false),
{
    law_classified_name(f.name);
    reveal_strlit("expect");
    reveal_strlit("x-irontraffic-");
    reveal_strlit("x-envoy-");
    reveal_strlit("x-forwarded-");
    lemma_ascii("expect"@);
    lemma_ascii("x-irontraffic-"@);
    lemma_ascii("x-envoy-"@);
    lemma_ascii("x-forwarded-"@);
    assert(f.name[0] == 'e' as u8);
    if ascii("x-irontraffic-"@).is_prefix_of(f.name) {
        assert(f.name[0] == ascii("x-irontraffic-"@)[0]);
    }
    if ascii("x-envoy-"@).is_prefix_of(f.name) {
        assert(f.name[0] == ascii("x-envoy-"@)[0]);
    }
    if ascii("x-forwarded-"@).is_prefix_of(f.name) {
        assert(f.name[0] == ascii("x-forwarded-"@)[0]);
    }
}

/// Values without the OWS around them.
spec fn trimmed(values: Seq<Seq<u8>>) -> Seq<Seq<u8>> {
    Seq::new(values.len(), |i: int| trim(values[i]))
}

/// The `expect` fields that are read are those that the request has.
proof fn lemma_expect_values(fields: Seq<Field>, n: int)
    requires
        0 <= n <= fields.len(),
        fields_text(fields, n, false) is Ok,
    ensures
        values_of(read_fields(written(fields, n, false)), KnownHeader::Expect) == trimmed(
            values_of(fields.take(n), KnownHeader::Expect),
        ),
    decreases n,
{
    let k = KnownHeader::Expect;
    if n > 0 {
        let f = fields[n - 1];
        let w = written(fields, n - 1, false);
        lemma_expect_values(fields, n - 1);
        assert(fields.take(n).drop_last() =~= fields.take(n - 1));
        assert(fields.take(n).last() == f);
        if f.known() is Expect {
            lemma_expect_written(f);
        }
        law_left_out(f, false);
        if skipped(f.known()) || reserved(f.name, false) {
        } else {
            lemma_valid_field(f);
            assert(read_fields(w.push(f)).drop_last() =~= read_fields(w));
            assert(read_fields(w.push(f)).last() == read_field(f));
        }
        assert(values_of(read_fields(written(fields, n, false)), k) =~= trimmed(
            values_of(fields.take(n), k),
        ));
    } else {
        assert(read_fields(written(fields, n, false)) =~= Seq::<Field>::empty());
        assert(fields.take(n) =~= Seq::<Field>::empty());
        assert(values_of(read_fields(written(fields, n, false)), k) =~= trimmed(
            values_of(fields.take(n), k),
        ));
    }
}

/// The text of an authority has nothing to trim.
proof fn lemma_authority_trim(a: AuthorityView)
    requires
        canonical_host(a.host),
    ensures
        trim(authority_text(a)) == authority_text(a),
        all_value_bytes(authority_text(a)),
{
    let t = authority_text(a);
    let n = a.host.len() as int;
    assert forall|i: int| 0 <= i < t.len() implies host_byte(#[trigger] t[i]) by {
        if i < n {
            assert(host_byte(a.host[i]));
        } else if i > n {
            let p = a.port->Some_0;
            law_decimal_round_trip(p as nat);
            assert(is_digit(dec_text(p as nat)[i - n - 1]));
        }
    }
    assert(host_byte(t[0]) && host_byte(t[t.len() - 1]));
    lemma_trim_id(t);
}

/// A number has nothing to trim.
pub proof fn lemma_number_trim(n: nat)
    ensures
        trim(dec_text(n)) == dec_text(n),
        all_value_bytes(dec_text(n)),
{
    law_decimal_round_trip(n);
    let t = dec_text(n);
    assert(is_digit(t[0]) && is_digit(t[t.len() - 1]));
    lemma_trim_id(t);
    assert forall|i: int| 0 <= i < t.len() implies crate::field::value_byte(#[trigger] t[i]) by {
        assert(is_digit(t[i]));
    }
}

/// `chunked` alone is an acceptable list of codings.
pub proof fn lemma_chunked_alone(policy: OtherCodings)
    ensures
        te_result(te_tokens(seq![ascii("chunked"@)]), policy) is Ok,
{
    lemma_plain_values();
    let v = ascii("chunked"@);
    let lines = seq![v];
    assert(lines.drop_last() =~= Seq::<Seq<u8>>::empty());
    assert(te_tokens(Seq::<Seq<u8>>::empty()) =~= Seq::<Seq<u8>>::empty());
    assert(v.skip(0) =~= v);
    assert(split(v, ',' as u8) =~= seq![v]);
    assert(te_tokens(lines) =~= seq![v]);
    let toks = seq![v];
    assert(toks.drop_last() =~= Seq::<Seq<u8>>::empty());
    assert(te_scan(Seq::<Seq<u8>>::empty()) is Ok);
    assert(is_chunked(v));
}

/// The framing that a body source stands for.
pub open spec fn body_matches(framing: RequestFraming, body: BodySource) -> bool {
    match (framing, body) {
        (RequestFraming::Empty, BodySource::Empty) => true,
        (RequestFraming::Exact { len }, BodySource::Exact { len: n }) => len == n && len > 0,
        (RequestFraming::Streamed, BodySource::Streaming) => true,
        _ => false,
    }
}

/// What is read of a field that the serializer writes itself.
proof fn lemma_read_own_fields(req: CanonicalRequest, body: BodySource, mode: ConnectionMode)
    requires
        canonical_host(req.authority@.host),
    ensures
        ({
            let host = Field { name: ascii("Host"@), value: authority_text(req.authority@) };
            &&& wire_ok(host)
            &&& read_field(host).value == authority_text(req.authority@)
            &&& read_field(host).known() is Host
        }),
        forall|i: int|
            0 <= i < framing_fields(body).len() ==> wire_ok(#[trigger] framing_fields(body)[i]),
        forall|i: int|
            0 <= i < connection_fields(mode).len() ==> wire_ok(#[trigger] connection_fields(mode)[i]),
        match body {
            BodySource::Empty => true,
            BodySource::Exact { len } => read_field(framing_fields(body)[0]).known()
                is ContentLength && read_field(framing_fields(body)[0]).value == dec_text(
                len as nat,
            ),
            BodySource::Streaming => read_field(framing_fields(body)[0]).known()
                is TransferEncoding && read_field(framing_fields(body)[0]).value == ascii(
                "chunked"@,
            ),
        },
        mode is Close ==> read_field(connection_fields(mode)[0]).known() is Connection,
{
    lemma_host_name();
    lemma_length_name();
    lemma_coding_name();
    lemma_connection_name();
    lemma_plain_values();
    law_classify_name(KnownHeader::Host);
    law_classify_name(KnownHeader::ContentLength);
    law_classify_name(KnownHeader::TransferEncoding);
    law_classify_name(KnownHeader::Connection);
    lemma_authority_trim(req.authority@);
    if let BodySource::Exact { len } = body {
        lemma_number_trim(len as nat);
    }
}

/// The values of one kind of field among all that are read: those of the
/// fields that the serializer writes itself, and those of the request's own.
proof fn lemma_read_values(
    req: CanonicalRequest,
    body: BodySource,
    mode: ConnectionMode,
    k: KnownHeader,
)
    requires
        canonical_host(req.authority@.host),
        !(k is Connection),
    ensures
        values_of(read_fields(all_written(req, body, mode)), k) == (if k is Host {
            seq![authority_text(req.authority@)]
        } else {
            Seq::empty()
        }) + (match body {
            BodySource::Empty => Seq::empty(),
            BodySource::Exact { len } => if k is ContentLength {
                seq![dec_text(len as nat)]
            } else {
                Seq::empty()
            },
            BodySource::Streaming => if k is TransferEncoding {
                seq![ascii("chunked"@)]
            } else {
                Seq::empty()
            },
        }) + values_of(
            read_fields(written(req.headers@, req.headers@.len() as int, false)),
            k,
        ),
{
    lemma_read_own_fields(req, body, mode);
    let host = Field { name: ascii("Host"@), value: authority_text(req.authority@) };
    let w = written(req.headers@, req.headers@.len() as int, false);
    let a = read_fields(seq![host]);
    let b = read_fields(framing_fields(body));
    let c = read_fields(connection_fields(mode));
    let d = read_fields(w);
    let all = read_fields(all_written(req, body, mode));
    assert(all =~= a + b + c + d);
    lemma_values_append(a + b + c, d, k);
    lemma_values_append(a + b, c, k);
    lemma_values_append(a, b, k);
    assert(a =~= seq![read_field(host)]);
    lemma_values_one(read_field(host), k);
    if b.len() > 0 {
        assert(b =~= seq![read_field(framing_fields(body)[0])]);
        lemma_values_one(read_field(framing_fields(body)[0]), k);
    } else {
        lemma_values_none(b, k);
    }
    if c.len() > 0 {
        assert(c =~= seq![read_field(connection_fields(mode)[0])]);
        lemma_values_one(read_field(connection_fields(mode)[0]), k);
    } else {
        lemma_values_none(c, k);
    }
    let vb = values_of(b, k);
    let va = values_of(a, k);
    assert(va + vb + Seq::<Seq<u8>>::empty() + values_of(d, k) =~= va + vb + values_of(d, k));
}

/// None of the request's own fields is read as one of these.
proof fn lemma_own_fields_clean(req: CanonicalRequest, k: KnownHeader)
    requires
        fields_text(req.headers@, req.headers@.len() as int, false) is Ok,
        request_fields_ok(req.headers@),
        hop_by_hop(k) || identity_field(k) || k is Host,
    ensures
        values_of(read_fields(written(req.headers@, req.headers@.len() as int, false)), k) == Seq::<
            Seq<u8>,
        >::empty(),
{
    let fields = req.headers@;
    let n = fields.len() as int;
    lemma_fields_text(fields, n, false);
    let w = written(fields, n, false);
    let r = read_fields(w);
    assert forall|i: int| 0 <= i < r.len() implies (#[trigger] r[i]).known() != k by {
        let f = w[i];
        assert(wire_ok(f) && canonical_name(f.name) == f.name && fields.contains(f));
        assert(r[i].known() == f.known());
        let j = fields.index_of(f);
        assert(!forbidden_in_request(fields[j]));
    }
    lemma_values_none(r, k);
}

/// The bytes of a path that is valid are visible and hold no `#`.
proof fn lemma_path_visible(p: Seq<u8>, i: int, policy: crate::path::PathPolicy)
    requires
        0 <= i <= p.len(),
        path_bytes_error(p, i, policy) is None,
    ensures
        forall|j: int| i <= j < p.len() ==> 0x21 <= #[trigger] p[j] <= 0x7e && p[j] != '#' as u8,
    decreases p.len() - i,
{
    if i < p.len() {
        if p[i] == '%' as u8 {
            lemma_path_visible(p, i + 3, policy);
        } else {
            lemma_path_visible(p, i + 1, policy);
        }
    }
}

/// A target that is read as a path can stand in a request line.
proof fn lemma_target_ok(target: Seq<u8>, policy: crate::path::PathPolicy, max_bytes: u32)
    requires
        parse_path(target, policy, max_bytes) is Ok,
    ensures
        target_ok(target),
        target[0] == '/' as u8,
{
    let mark = crate::text::find(target, '?' as u8, 0);
    crate::text::lemma_find(target, '?' as u8, 0);
    let path = target.take(mark);
    lemma_path_visible(path, 0, policy);
    assert(path[0] == target[0]);
    assert forall|i: int| 0 <= i < target.len() implies 0x21 <= #[trigger] target[i] <= 0x7e
        && target[i] != '#' as u8 by {
        if i < mark {
            assert(path[i] == target[i]);
        } else if i > mark {
            assert(crate::path::query_byte(target.skip(mark + 1)[i - mark - 1]));
        }
    }
}

/// The authority that is read is the one that was written.
proof fn lemma_authority_read(req: CanonicalRequest, ctx: H1Context)
    requires
        canonical_host(req.authority@.host),
        req.authority@.port != Some(0u16),
        req.authority@.port != Some(req.scheme.default_port_spec()),
        authority_text(req.authority@).len() <= ctx.limits@.max_authority_bytes,
        ctx.scheme == req.scheme,
    ensures
        reconciled(
            Some(authority_text(req.authority@)),
            None,
            ctx.scheme,
            WireVersion::Http11,
            ctx.limits@.max_authority_bytes,
        ) == Ok::<AuthorityView, RejectReason>(req.authority@),
{
    law_authority_text_reads_back(req.authority@, req.scheme, ctx.limits@.max_authority_bytes);
}

/// The framing that is read is the one that the body was written with.
proof fn lemma_framing_read(
    req: CanonicalRequest,
    body: BodySource,
    mode: ConnectionMode,
    m: Method,
    policy: OtherCodings,
)
    requires
        canonical_host(req.authority@.host),
        fields_text(req.headers@, req.headers@.len() as int, false) is Ok,
        request_fields_ok(req.headers@),
        body_matches(req.framing, body),
        !(m is Connect),
    ensures
        request_framing(
            m,
            WireVersion::Http11,
            read_fields(all_written(req, body, mode)),
            policy,
        ) == Ok::<RequestFraming, RejectReason>(req.framing),
{
    let g = read_fields(all_written(req, body, mode));
    lemma_read_values(req, body, mode, KnownHeader::ContentLength);
    lemma_read_values(req, body, mode, KnownHeader::TransferEncoding);
    lemma_own_fields_clean(req, KnownHeader::ContentLength);
    lemma_own_fields_clean(req, KnownHeader::TransferEncoding);
    let lengths = values_of(g, KnownHeader::ContentLength);
    let codings = values_of(g, KnownHeader::TransferEncoding);
    match body {
        BodySource::Empty => {
            assert(lengths =~= Seq::<Seq<u8>>::empty());
            assert(codings =~= Seq::<Seq<u8>>::empty());
        },
        BodySource::Exact { len } => {
            assert(lengths =~= seq![dec_text(len as nat)]);
            assert(codings =~= Seq::<Seq<u8>>::empty());
            lemma_number_trim(len as nat);
            law_decimal_round_trip(len as nat);
            reveal_with_fuel(pow10, 21);
            lemma_dec_text_len(len as nat, 20);
        },
        BodySource::Streaming => {
            assert(lengths =~= Seq::<Seq<u8>>::empty());
            assert(codings =~= seq![ascii("chunked"@)]);
            lemma_chunked_alone(policy);
        },
    }
}

/// What the reader does about `Expect` is what it does about that of the
/// request.
proof fn lemma_expect_read(
    req: CanonicalRequest,
    body: BodySource,
    mode: ConnectionMode,
    will_buffer: bool,
)
    requires
        canonical_host(req.authority@.host),
        fields_text(req.headers@, req.headers@.len() as int, false) is Ok,
    ensures
        expect_action(read_fields(all_written(req, body, mode)), will_buffer) == expect_action(
            req.headers@,
            will_buffer,
        ),
{
    let k = KnownHeader::Expect;
    let n = req.headers@.len() as int;
    lemma_read_values(req, body, mode, k);
    lemma_expect_values(req.headers@, n);
    assert(req.headers@.take(n) =~= req.headers@);
    let own = values_of(req.headers@, k);
    let read = values_of(read_fields(all_written(req, body, mode)), k);
    assert(read =~= trimmed(own));
    if own.len() == 1 {
        law_trim_idempotent(own[0]);
        assert(read[0] == trim(own[0]));
    }
}

/// The forwarding chain that is read is empty.
proof fn lemma_chain_read(
    req: CanonicalRequest,
    body: BodySource,
    mode: ConnectionMode,
    ctx: H1Context,
)
    requires
        canonical_host(req.authority@.host),
        fields_text(req.headers@, req.headers@.len() as int, false) is Ok,
        request_fields_ok(req.headers@),
    ensures
        chain_of_section(read_fields(all_written(req, body, mode)), ctx.limits@) == Ok::<
            ChainView,
            RejectReason,
        >(no_chain()),
{
    let g = read_fields(all_written(req, body, mode));
    lemma_read_values(req, body, mode, KnownHeader::Forwarded);
    lemma_read_values(req, body, mode, KnownHeader::XForwardedFor);
    lemma_read_values(req, body, mode, KnownHeader::XForwardedProto);
    lemma_own_fields_clean(req, KnownHeader::Forwarded);
    lemma_own_fields_clean(req, KnownHeader::XForwardedFor);
    lemma_own_fields_clean(req, KnownHeader::XForwardedProto);
    let none = Seq::<Seq<u8>>::empty();
    assert(values_of(g, KnownHeader::Forwarded) =~= none);
    assert(values_of(g, KnownHeader::XForwardedFor) =~= none);
    assert(values_of(g, KnownHeader::XForwardedProto) =~= none);
    law_no_lines_no_chain(ctx.limits@);
}

/// Every field of a serialized head reads back as it is written.
proof fn lemma_all_wire_ok(req: CanonicalRequest, body: BodySource, mode: ConnectionMode)
    requires
        canonical_host(req.authority@.host),
        fields_text(req.headers@, req.headers@.len() as int, false) is Ok,
    ensures
        forall|k: int|
            0 <= k < all_written(req, body, mode).len() ==> wire_ok(
                #[trigger] all_written(req, body, mode)[k],
            ),
{
    let all = all_written(req, body, mode);
    lemma_fields_text(req.headers@, req.headers@.len() as int, false);
    lemma_read_own_fields(req, body, mode);
    let w = written(req.headers@, req.headers@.len() as int, false);
    let nf = framing_fields(body).len() as int;
    let nc = connection_fields(mode).len() as int;
    assert forall|k: int| 0 <= k < all.len() implies wire_ok(#[trigger] all[k]) by {
        if k == 0 {
        } else if k < 1 + nf {
            assert(all[k] == framing_fields(body)[k - 1]);
        } else if k < 1 + nf + nc {
            assert(all[k] == connection_fields(mode)[k - 1 - nf]);
        } else {
            assert(all[k] == w[k - 1 - nf - nc]);
        }
    }
}

/// A serialized request head, parsed and brought into canonical form by a
/// listener of the same scheme, is the same request: the same method,
/// authority, path, query and framing. The whole head is taken.
///
/// The request is one that parsing makes: its authority and its path are
/// canonical, its fields stripped, its `Expect` understood. It is not
/// `CONNECT`, and its head is within the listener's limits.
#[verifier::spinoff_prover]
#[verifier::rlimit(40)]
pub proof fn law_serialized_request_reads_back(
    req: CanonicalRequest,
    body: BodySource,
    mode: ConnectionMode,
    emit: ForwardEmit,
    local: SocketAddr,
    ctx: H1Context,
    m: Method,
)
    requires
        request_head_text(req, TargetForm::Origin, body, mode, emit, local) is Ok,
        !emit.emit_forwarded,
        !emit.emit_x_forwarded,
        body_matches(req.framing, body),
        // The request is one that parsing makes.
        names_method(req.method.bytes_spec(), m),
        !(m is Connect),
        method_error(req.method.bytes_spec(), ctx.limits@.max_method_bytes) is None,
        canonical_host(req.authority@.host),
        req.authority@.port != Some(0u16),
        req.authority@.port != Some(req.scheme.default_port_spec()),
        parse_path(req.target_spec(), ctx.path_policy, ctx.limits@.max_path_bytes) == Ok::<
            (Seq<u8>, Option<Seq<u8>>),
            RejectReason,
        >((req.path@, query_view(req.query))),
        request_fields_ok(req.headers@),
        expect_action(req.headers@, ctx.will_buffer_body) is Ok,
        // The listener is one of the same scheme, and the head is within its limits.
        ctx.scheme == req.scheme,
        authority_text(req.authority@).len() <= ctx.limits@.max_authority_bytes,
        request_line_text(req.method.bytes_spec(), req.target_spec()).len() + 2
            <= ctx.limits@.max_request_line_bytes,
        fields_fit(read_fields(all_written(req, body, mode)), ctx.limits@),
        (request_head_text(req, TargetForm::Origin, body, mode, emit, local)->Ok_0).len()
            <= u32::MAX,
    ensures
        ({
            let text = request_head_text(req, TargetForm::Origin, body, mode, emit, local)->Ok_0;
            let parsed = request_head(text, ctx.limits@, ctx.underscores);
            let head = (parsed->Ok_0->Some_0).0;
            let again = canonical_request(m, head, text, ctx);
            &&& parsed matches Ok(Some(_))
            &&& (parsed->Ok_0->Some_0).1 == text.len()
            &&& crate::h1::parser::span_or_empty(head.method, text) == req.method.bytes_spec()
            &&& again is Ok
            &&& (again->Ok_0).0.scheme == req.scheme
            &&& (again->Ok_0).0.authority == req.authority@
            &&& (again->Ok_0).0.path == req.path@
            &&& (again->Ok_0).0.query == query_view(req.query)
            &&& (again->Ok_0).0.framing == req.framing
            &&& Ok::<ExpectAction, RejectReason>((again->Ok_0).1) == expect_action(
                req.headers@,
                ctx.will_buffer_body,
            )
            &&& (again->Ok_0).2 is Origin
            &&& compacted(head.fields, text, ctx.underscores, head.version, ctx.limits@) == Ok::<
                Seq<Field>,
                RejectReason,
            >(read_fields(all_written(req, body, mode)))
            &&& (again->Ok_0).0.headers == stripped_ingress(
                if (again->Ok_0).1 is AnswerLocally {
                    without(read_fields(all_written(req, body, mode)), KnownHeader::Expect)
                } else {
                    read_fields(all_written(req, body, mode))
                },
            )
        }),
{
    let text = request_head_text(req, TargetForm::Origin, body, mode, emit, local)->Ok_0;
    let method = req.method.bytes_spec();
    let target = req.target_spec();
    let all = all_written(req, body, mode);
    let g = read_fields(all);
    let limits = ctx.limits@;
    lemma_serialized_lines(req, body, mode, emit, local);
    lemma_read_own_fields(req, body, mode);
    lemma_target_ok(target, ctx.path_policy, limits.max_path_bytes);
    lemma_all_wire_ok(req, body, mode);
    lemma_head_reads_back(method, target, all, limits, ctx.underscores);
    assert(values_of(g, KnownHeader::Host) == seq![authority_text(req.authority@)]) by {
        lemma_read_values(req, body, mode, KnownHeader::Host);
        lemma_own_fields_clean(req, KnownHeader::Host);
        assert(values_of(g, KnownHeader::Host) =~= seq![authority_text(req.authority@)]);
    }
    lemma_authority_read(req, ctx);
    lemma_framing_read(req, body, mode, m, ctx.codings);
    lemma_chain_read(req, body, mode, ctx);
    lemma_expect_read(req, body, mode, ctx.will_buffer_body);
    assert(target != seq!['*' as u8]) by {
        assert(target[0] == '/' as u8);
    }
}

/// A request whose authority and target were read from any texts, serialized
/// for a listener of the same scheme, parsed and brought into canonical form
/// again, is the same request: the same method, authority, path, query and
/// framing. The whole head is taken.
///
/// It has no `Expect` field, is not `CONNECT`, and its head is within the
/// listener's limits.
pub proof fn law_parsed_request_reads_back(
    req: CanonicalRequest,
    raw_authority: Seq<u8>,
    raw_target: Seq<u8>,
    body: BodySource,
    mode: ConnectionMode,
    emit: ForwardEmit,
    local: SocketAddr,
    ctx: H1Context,
    m: Method,
)
    requires
        parse_authority(raw_authority, req.scheme, ctx.limits@.max_authority_bytes) == Ok::<
            AuthorityView,
            RejectReason,
        >(req.authority@),
        parse_path(raw_target, ctx.path_policy, ctx.limits@.max_path_bytes) == Ok::<
            (Seq<u8>, Option<Seq<u8>>),
            RejectReason,
        >((req.path@, query_view(req.query))),
        request_head_text(req, TargetForm::Origin, body, mode, emit, local) is Ok,
        !emit.emit_forwarded,
        !emit.emit_x_forwarded,
        body_matches(req.framing, body),
        names_method(req.method.bytes_spec(), m),
        !(m is Connect),
        method_error(req.method.bytes_spec(), ctx.limits@.max_method_bytes) is None,
        request_fields_ok(req.headers@),
        values_of(req.headers@, KnownHeader::Expect).len() == 0,
        ctx.scheme == req.scheme,
        request_line_text(req.method.bytes_spec(), req.target_spec()).len() + 2
            <= ctx.limits@.max_request_line_bytes,
        fields_fit(read_fields(all_written(req, body, mode)), ctx.limits@),
        (request_head_text(req, TargetForm::Origin, body, mode, emit, local)->Ok_0).len()
            <= u32::MAX,
    ensures
        ({
            let text = request_head_text(req, TargetForm::Origin, body, mode, emit, local)->Ok_0;
            let parsed = request_head(text, ctx.limits@, ctx.underscores);
            let head = (parsed->Ok_0->Some_0).0;
            let again = canonical_request(m, head, text, ctx);
            &&& parsed matches Ok(Some(_))
            &&& (parsed->Ok_0->Some_0).1 == text.len()
            &&& crate::h1::parser::span_or_empty(head.method, text) == req.method.bytes_spec()
            &&& again is Ok
            &&& (again->Ok_0).0.authority == req.authority@
            &&& (again->Ok_0).0.path == req.path@
            &&& (again->Ok_0).0.query == query_view(req.query)
            &&& (again->Ok_0).0.framing == req.framing
        }),
{
    law_parsed_authority(raw_authority, req.scheme, ctx.limits@.max_authority_bytes);
    law_normalized_path_reads_back(raw_target, ctx.path_policy, ctx.limits@.max_path_bytes);
    law_serialized_request_reads_back(req, body, mode, emit, local, ctx, m);
}

/// A serialized head, written without telling about the client, is its request
/// line and its fields. At most one of these is a framing field, and it is the
/// one for the body; exactly one is `Host`, and it names the authority.
pub proof fn law_at_most_one_framing_field(
    req: CanonicalRequest,
    body: BodySource,
    mode: ConnectionMode,
    emit: ForwardEmit,
    local: SocketAddr,
)
    requires
        request_head_text(req, TargetForm::Origin, body, mode, emit, local) is Ok,
        !emit.emit_forwarded,
        !emit.emit_x_forwarded,
        canonical_host(req.authority@.host),
    ensures
        ({
            let g = read_fields(all_written(req, body, mode));
            &&& request_head_text(req, TargetForm::Origin, body, mode, emit, local)->Ok_0
                == lines_text(
                head_lines(
                    req.method.bytes_spec(),
                    req.target_spec(),
                    all_written(req, body, mode),
                ),
            ) + crlf()
            &&& values_of(g, KnownHeader::Host) == seq![authority_text(req.authority@)]
            &&& values_of(g, KnownHeader::ContentLength) == match body {
                BodySource::Exact { len } => seq![dec_text(len as nat)],
                _ => Seq::empty(),
            }
            &&& values_of(g, KnownHeader::TransferEncoding) == match body {
                BodySource::Streaming => seq![ascii("chunked"@)],
                _ => Seq::empty(),
            }
        }),
{
    let fields = req.headers@;
    let n = fields.len() as int;
    let g = read_fields(all_written(req, body, mode));
    let r = read_fields(written(fields, n, false));
    lemma_serialized_lines(req, body, mode, emit, local);
    lemma_fields_text(fields, n, false);
    assert forall|i: int| 0 <= i < r.len() implies !hop_by_hop((#[trigger] r[i]).known())
        && !skipped(r[i].known()) by {
        let f = written(fields, n, false)[i];
        assert(wire_ok(f) && canonical_name(f.name) == f.name);
        assert(r[i].known() == f.known());
    }
    lemma_values_none(r, KnownHeader::Host);
    lemma_values_none(r, KnownHeader::ContentLength);
    lemma_values_none(r, KnownHeader::TransferEncoding);
    lemma_read_values(req, body, mode, KnownHeader::Host);
    lemma_read_values(req, body, mode, KnownHeader::ContentLength);
    lemma_read_values(req, body, mode, KnownHeader::TransferEncoding);
    assert(values_of(g, KnownHeader::Host) =~= seq![authority_text(req.authority@)]);
    assert(values_of(g, KnownHeader::ContentLength) =~= match body {
        BodySource::Exact { len } => seq![dec_text(len as nat)],
        _ => Seq::empty(),
    });
    assert(values_of(g, KnownHeader::TransferEncoding) =~= match body {
        BodySource::Streaming => seq![ascii("chunked"@)],
        _ => Seq::empty(),
    });
}

} // verus!
