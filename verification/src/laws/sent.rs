//! Which fields of a message are written, and that they are read again.
use crate::authority::{authority_text, canonical_host};
use crate::canonical::{query_view, request_fields_ok, CanonicalRequest, CanonicalResponse};
use crate::error::RejectReason;
use crate::expect::expect_action;
use crate::field::{canonical_name, trim};
use crate::h1::canonicalize::{compacted, names_method, H1Context};
use crate::h1::parser::{request_head, response_head};
use crate::h1::request_round_trip::{
    all_written, body_matches, connection_fields, framing_fields, law_serialized_request_reads_back,
    left_out, lemma_fields_text, wire_text, written,
};
use crate::h1::response_round_trip::{
    framed_body, law_serialized_response_reads_back, response_connection, response_written,
    status_line_text,
};
use crate::h1::round_trip::{fields_fit, read_fields, request_line_text};
use crate::h1::serialize::{request_head_text, response_head_text, BodySource, ConnectionMode};
use crate::net::SocketAddr;
use crate::path::{parse_path, TargetForm};
use crate::peer::ForwardEmit;
use crate::scalar::{method_error, Method};
use crate::section::Field;
use crate::text::ascii;
use vstd::prelude::*;

verus! {

/// The fields that are not left out.
pub open spec fn is_sent(response: bool) -> spec_fn(Field) -> bool {
    |f: Field| !left_out(f.name, response)
}

/// Whether the fields `b` are, in order, those of `a` that are not left out.
pub open spec fn sent_of(a: Seq<Field>, b: Seq<Field>, response: bool) -> bool {
    b == a.filter(is_sent(response))
}

/// What is written of a section is all of it but the names that are left out,
/// in order.
pub proof fn law_written_fields(fields: Seq<Field>, response: bool)
    ensures
        sent_of(fields, written(fields, fields.len() as int, response), response),
    decreases fields.len(),
{
    reveal(Seq::filter);
    let n = fields.len() as int;
    if n > 0 {
        let d = fields.drop_last();
        law_written_fields(d, response);
        lemma_written_prefix(fields, n - 1, response);
        assert(fields.take(n - 1) =~= d);
        assert(fields.last() == fields[n - 1]);
        assert(is_sent(response)(fields.last()) == !left_out(fields[n - 1].name, response));
    } else {
        assert(fields.filter(is_sent(response)) =~= Seq::<Field>::empty());
    }
}

proof fn lemma_written_prefix(fields: Seq<Field>, n: int, response: bool)
    requires
        0 <= n <= fields.len(),
    ensures
        written(fields, n, response) == written(fields.take(n), n, response),
    decreases n,
{
    if n > 0 {
        lemma_written_prefix(fields, n - 1, response);
        lemma_written_prefix(fields.take(n), n - 1, response);
        assert(fields.take(n).take(n - 1) =~= fields.take(n - 1));
        assert(fields.take(n)[n - 1] == fields[n - 1]);
    }
}

/// Two requests that differ in nothing but their fields are written with the
/// same bytes before them; then come, for each, the lines of its fields but
/// those that are left out, and the empty line. This holds whatever is told
/// about the client.
pub proof fn law_fields_stand_in_the_head(
    a: CanonicalRequest,
    b: CanonicalRequest,
    form: TargetForm,
    body: BodySource,
    mode: ConnectionMode,
    emit: ForwardEmit,
    local: SocketAddr,
)
    requires
        a.method == b.method,
        a.scheme == b.scheme,
        a.authority == b.authority,
        a.path == b.path,
        a.query == b.query,
        a.peer == b.peer,
        b.headers@.len() == 0,
        request_head_text(a, form, body, mode, emit, local) is Ok,
        request_head_text(b, form, body, mode, emit, local) is Ok,
    ensures
        ({
            let x = request_head_text(a, form, body, mode, emit, local)->Ok_0;
            let y = request_head_text(b, form, body, mode, emit, local)->Ok_0;
            let lines = wire_text(written(a.headers@, a.headers@.len() as int, false));
            &&& y.len() >= 2
            &&& x == y.take(y.len() - 2) + lines + seq![13u8, 10u8]
            &&& y == y.take(y.len() - 2) + seq![13u8, 10u8]
        }),
{
    lemma_fields_text(a.headers@, a.headers@.len() as int, false);
    crate::h1::chunk_laws::lemma_line_end();
    let x = request_head_text(a, form, body, mode, emit, local)->Ok_0;
    let y = request_head_text(b, form, body, mode, emit, local)->Ok_0;
    let lines = wire_text(written(a.headers@, a.headers@.len() as int, false));
    reveal(crate::h1::serialize::emit_text);
    assert(x =~= y.take(y.len() - 2) + lines + seq![13u8, 10u8]);
    assert(y =~= y.take(y.len() - 2) + seq![13u8, 10u8]);
}

/// Whether the fields `sent` are read at the end of `read`, with the same
/// names and, but for the whitespace around them, the same values.
pub open spec fn read_at_the_end(read: Seq<Field>, sent: Seq<Field>) -> bool {
    &&& read.len() >= sent.len()
    &&& forall|i: int|
        0 <= i < sent.len() ==> {
            &&& read[read.len() - sent.len() + i].name == (#[trigger] sent[i]).name
            &&& read[read.len() - sent.len() + i].value == trim(sent[i].value)
        }
}

proof fn lemma_read_at_the_end(own: Seq<Field>, w: Seq<Field>)
    requires
        forall|i: int| 0 <= i < w.len() ==> canonical_name((#[trigger] w[i]).name) == w[i].name,
    ensures
        read_at_the_end(read_fields(own + w), w),
        read_fields(own + w).len() == own.len() + w.len(),
{
    let read = read_fields(own + w);
    assert forall|i: int| 0 <= i < w.len() implies {
        &&& read[read.len() - w.len() + i].name == (#[trigger] w[i]).name
        &&& read[read.len() - w.len() + i].value == trim(w[i].value)
    } by {
        assert((own + w)[own.len() + i] == w[i]);
    }
}

/// A serialized request, parsed again, has every field of the request but
/// `host`, `te` and those with a reserved prefix, with the same name and value
/// and in the same order. What stands before them is written for the message:
/// `host`, at most one framing field and at most one `connection`.
pub proof fn law_request_fields_read_back(
    req: CanonicalRequest,
    body: BodySource,
    mode: ConnectionMode,
    emit: ForwardEmit,
    local: SocketAddr,
    ctx: H1Context,
    m: Method,
    sent: Seq<Field>,
)
    requires
        sent_of(req.headers@, sent, false),
        request_head_text(req, TargetForm::Origin, body, mode, emit, local) is Ok,
        !emit.emit_forwarded,
        !emit.emit_x_forwarded,
        body_matches(req.framing, body),
        names_method(req.method.bytes_spec(), m),
        !(m is Connect),
        method_error(req.method.bytes_spec(), ctx.limits@.max_method_bytes) is None,
        canonical_host(req.authority@.host),
        req.authority@.port != Some(0u16),
        req.authority@.port != Some(req.scheme.default_port_spec()),
        parse_path(req.target_spec(), ctx.path_policy, ctx.limits@.max_path_bytes) == Ok::<
            (Seq<u8>, Option<Seq<u8>>),
            RejectReason,
        >((req.path@, query_view(req.query))),
        request_fields_ok(req.headers@),
        expect_action(req.headers@, ctx.will_buffer_body) is Ok,
        ctx.scheme == req.scheme,
        authority_text(req.authority@).len() <= ctx.limits@.max_authority_bytes,
        request_line_text(req.method.bytes_spec(), req.target_spec()).len() + 2
            <= ctx.limits@.max_request_line_bytes,
        fields_fit(read_fields(all_written(req, body, mode)), ctx.limits@),
        (request_head_text(req, TargetForm::Origin, body, mode, emit, local)->Ok_0).len()
            <= u32::MAX,
    ensures
        ({
            let text = request_head_text(req, TargetForm::Origin, body, mode, emit, local)->Ok_0;
            let parsed = request_head(text, ctx.limits@, ctx.underscores);
            let head = (parsed->Ok_0->Some_0).0;
            let read = compacted(head.fields, text, ctx.underscores, head.version, ctx.limits@);
            &&& parsed matches Ok(Some(_))
            &&& read is Ok
            &&& read_at_the_end(read->Ok_0, sent)
            &&& read->Ok_0.len() <= sent.len() + 3
        }),
{
    let n = req.headers@.len() as int;
    let w = written(req.headers@, n, false);
    law_written_fields(req.headers@, false);
    law_serialized_request_reads_back(req, body, mode, emit, local, ctx, m);
    lemma_fields_text(req.headers@, n, false);
    let host = seq![Field { name: ascii("Host"@), value: authority_text(req.authority@) }];
    lemma_read_at_the_end(host + framing_fields(body) + connection_fields(mode), w);
}

/// A serialized response, parsed again, has every field of the response but
/// `host`, `te` and those with the reserved prefix, with the same name and
/// value and in the same order, behind at most one framing field and at most
/// one `connection`.
pub proof fn law_response_fields_read_back(
    res: CanonicalResponse,
    method: Method,
    body: BodySource,
    keep_alive: bool,
    ctx: H1Context,
    sent: Seq<Field>,
)
    requires
        sent_of(res.headers@, sent, true),
        100 <= res.status@ <= 599,
        response_head_text(res, method, body, keep_alive) is Ok,
        status_line_text(res.status@).len() + 2 <= ctx.limits@.max_request_line_bytes,
        fields_fit(read_fields(response_written(res, method, body, keep_alive)), ctx.limits@),
        (response_head_text(res, method, body, keep_alive)->Ok_0).len() <= u32::MAX,
    ensures
        ({
            let text = response_head_text(res, method, body, keep_alive)->Ok_0;
            let parsed = response_head(text, ctx.limits@, ctx.underscores);
            let head = (parsed->Ok_0->Some_0).0;
            let read = compacted(head.fields, text, ctx.underscores, head.version, ctx.limits@);
            &&& parsed matches Ok(Some(_))
            &&& read is Ok
            &&& read_at_the_end(read->Ok_0, sent)
            &&& read->Ok_0.len() <= sent.len() + 2
        }),
{
    let n = res.headers@.len() as int;
    let w = written(res.headers@, n, true);
    law_written_fields(res.headers@, true);
    law_serialized_response_reads_back(res, method, body, keep_alive, ctx);
    lemma_fields_text(res.headers@, n, true);
    lemma_read_at_the_end(
        framing_fields(framed_body(res.status@, method, body)) + response_connection(
            keep_alive,
            res.version,
        ),
        w,
    );
}

} // verus!
