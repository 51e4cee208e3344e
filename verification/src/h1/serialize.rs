//! From the canonical form to HTTP/1 on the wire.
//!
//! Framing is written from a [`BodySource`] and from nothing else: the
//! inbound framing fields are gone, and a message that still carries one is
//! refused. The version is always HTTP/1.1 and the target never in absolute
//! form. On an error nothing is written.
use crate::addr_text::{node_len, node_text, write_node};
use crate::authority::{authority_text, Authority, AuthorityView};
use crate::canonical::{sat_len, CanonicalRequest, CanonicalResponse};
use crate::error::RejectReason;
use crate::ext::{content, has_room, put_u8};
use crate::field::{name_error, validate_name, validate_value, value_error};
use crate::h1::chunked::{trailer_denied, trailer_denied_spec};
use crate::known::KnownHeader;
use crate::net::SocketAddr;
use crate::num::{dec_text, decimal_len, hex_text, put_decimal, put_hex};
use crate::path::TargetForm;
use crate::peer::{
    forwarded_element_len, forwarded_text, write_forwarded_element, ForwardEmit, PeerIdentity,
};
use crate::scalar::{Method, Scheme, WireVersion};
use crate::section::{values_of, Field, FieldSection};
use crate::strip::{
    hop_by_hop, is_hop_by_hop, is_reserved_prefix, is_response_reserved_prefix, reserved_prefix,
    response_reserved_prefix,
};
use crate::text::{ascii, lemma_ascii};
use bytes::BytesMut;
use vstd::prelude::*;

verus! {

/// What body follows a head.
#[derive(Copy, Clone, Debug, PartialEq, Eq, Structural)]
pub enum BodySource {
    /// None: no framing field is written.
    Empty,
    /// Exactly `len` bytes: `Content-Length` is written.
    Exact {
        /// The body length in bytes.
        len: u64,
    },
    /// A body of unknown length: `Transfer-Encoding: chunked` is written.
    Streaming,
}

/// Whether the connection to the upstream stays open.
#[derive(Copy, Clone, Debug, PartialEq, Eq, Structural)]
pub enum ConnectionMode {
    /// It does, which HTTP/1.1 implies: nothing is written.
    KeepAlive,
    /// It does not: `Connection: close` is written.
    Close,
}

/// CR LF, as it is written.
pub open spec fn line_end() -> Seq<u8> {
    ascii("\r\n"@)
}

/// Appends a literal.
fn put_text(out: &mut BytesMut, s: &str)
    requires
        has_room(content(*old(out)).len() as int, ascii(s@).len() as int),
    ensures
        content(*final(out)) == content(*old(out)) + ascii(s@),
{
    out.extend_from_slice(s.as_bytes());
}

fn text_len(s: &str) -> (r: usize)
    ensures
        r == ascii(s@).len(),
{
    s.as_bytes().len()
}

// ---- chunked bodies ----

/// One chunk: its size in hexadecimal, its data, and a CR LF behind each.
pub open spec fn chunk_text(data: Seq<u8>) -> Seq<u8> {
    hex_text(data.len()) + line_end() + data + line_end()
}

/// One field line.
pub open spec fn field_text(f: Field) -> Seq<u8> {
    f.name + ascii(": "@) + f.value + line_end()
}

/// What is wrong with a field on the way out.
pub open spec fn egress_error(f: Field) -> Option<RejectReason> {
    if name_error(f.name) is Some {
        name_error(f.name)
    } else {
        value_error(f.value, WireVersion::Http11)
    }
}

/// The lines of the first `n` trailers, or why one of them is refused.
pub open spec fn trailer_lines(fields: Seq<Field>, n: int) -> Result<Seq<u8>, RejectReason>
    decreases n,
{
    if n <= 0 {
        Ok(Seq::empty())
    } else {
        match trailer_lines(fields, n - 1) {
            Err(e) => Err(e),
            Ok(t) => {
                let f = fields[n - 1];
                if trailer_denied_spec(f.known()) {
                    Err(RejectReason::TrailerFieldForbidden)
                } else if egress_error(f) is Some {
                    Err(egress_error(f)->Some_0)
                } else {
                    Ok(t + field_text(f))
                }
            },
        }
    }
}

/// The end of a chunked body: the chunk of size zero, the trailers and a
/// blank line.
pub open spec fn last_chunk_text(fields: Seq<Field>) -> Result<Seq<u8>, RejectReason> {
    match trailer_lines(fields, fields.len() as int) {
        Err(e) => Err(e),
        Ok(t) => Ok(ascii("0\r\n"@) + t + line_end()),
    }
}

proof fn lemma_trailer_lines_error(fields: Seq<Field>, n: int, m: int)
    requires
        0 <= n <= m,
        trailer_lines(fields, n) is Err,
    ensures
        trailer_lines(fields, m) == trailer_lines(fields, n),
    decreases m,
{
    if n < m {
        lemma_trailer_lines_error(fields, n, m - 1);
    }
}

proof fn lemma_trailer_lines_prefix(fields: Seq<Field>, n: int, m: int)
    requires
        0 <= n <= m,
        trailer_lines(fields, m) is Ok,
    ensures
        trailer_lines(fields, n) is Ok,
        (trailer_lines(fields, n)->Ok_0).len() <= (trailer_lines(fields, m)->Ok_0).len(),
    decreases m,
{
    if n < m {
        lemma_trailer_lines_prefix(fields, n, m - 1);
    }
}

/// Writes chunks. An empty chunk would end the body, so none is written; once
/// the body is finished nothing is written at all.
#[derive(Debug)]
pub struct ChunkedEncoder {
    finished: bool,
}

impl View for ChunkedEncoder {
    type V = bool;

    closed spec fn view(&self) -> bool {
        self.finished
    }
}

impl Default for ChunkedEncoder {
    fn default() -> (r: Self)
        ensures
            !r@,
    {
        ChunkedEncoder { finished: false }
    }
}

impl ChunkedEncoder {
    /// A new encoder.
    #[must_use]
    pub fn new() -> (r: Self)
        ensures
            !r@,
    {
        ChunkedEncoder { finished: false }
    }

    /// Appends one chunk and returns the number of bytes written: none for
    /// empty data, and none once the body is finished.
    pub fn write_chunk(&mut self, data: &[u8], out: &mut BytesMut) -> (r: usize)
        requires
            !old(self)@ && data@.len() > 0 ==> has_room(
                content(*old(out)).len() as int,
                chunk_text(data@).len() as int,
            ),
        ensures
            final(self)@ == old(self)@,
            if old(self)@ || data@.len() == 0 {
                r == 0 && content(*final(out)) == content(*old(out))
            } else {
                r == chunk_text(data@).len() && content(*final(out)) == content(*old(out))
                    + chunk_text(data@)
            },
    {
        if self.is_finished() || data.len() == 0 {
            return 0;
        }
        let start: usize = out.len();
        let ghost before = content(*out);
        let _digits: usize = put_hex(out, data.len() as u64);
        put_text(out, "\r\n");
        out.extend_from_slice(data);
        put_text(out, "\r\n");
        assert(content(*out) =~= before + chunk_text(data@));
        out.len() - start
    }

    /// Appends the end of the body with its trailers, and returns the number
    /// of bytes written: none if the body was finished before. A trailer that
    /// may not stand there, or that is not valid, is refused, and nothing is
    /// written.
    pub fn finish(&mut self, trailers: &FieldSection, out: &mut BytesMut) -> (r: Result<
        usize,
        RejectReason,
    >)
        requires
            !old(self)@ && last_chunk_text(trailers@) is Ok ==> has_room(
                content(*old(out)).len() as int,
                (last_chunk_text(trailers@)->Ok_0).len() as int,
            ),
        ensures
            match r {
                Ok(n) => if old(self)@ {
                    n == 0 && content(*final(out)) == content(*old(out)) && final(self)@
                } else {
                    &&& last_chunk_text(trailers@) is Ok
                    &&& n == (last_chunk_text(trailers@)->Ok_0).len()
                    &&& content(*final(out)) == content(*old(out)) + last_chunk_text(
                        trailers@,
                    )->Ok_0
                    &&& final(self)@
                },
                Err(e) => {
                    &&& !old(self)@
                    &&& last_chunk_text(trailers@) == Err::<Seq<u8>, RejectReason>(e)
                    &&& content(*final(out)) == content(*old(out))
                    &&& !final(self)@
                },
            },
    {
        if self.is_finished() {
            return Ok(0);
        }
        check_trailers(trailers)?;
        let start: usize = out.len();
        write_trailers(trailers, out);
        self.finished = true;
        Ok(out.len() - start)
    }

    /// Whether the body is finished.
    #[must_use]
    pub fn is_finished(&self) -> (r: bool)
        ensures
            r == self@,
    {
        self.finished
    }
}

/// Refuses what may not be written as a field.
fn check_egress(name: &[u8], value: &[u8]) -> (r: Result<(), RejectReason>)
    ensures
        match r {
            Ok(()) => egress_error(Field { name: name@, value: value@ }) is None,
            Err(e) => egress_error(Field { name: name@, value: value@ }) == Some(e),
        },
{
    validate_name(name, WireVersion::Http11)?;
    validate_value(value, WireVersion::Http11)
}

fn check_trailers(trailers: &FieldSection) -> (r: Result<(), RejectReason>)
    ensures
        match r {
            Ok(()) => trailer_lines(trailers@, trailers@.len() as int) is Ok,
            Err(e) => trailer_lines(trailers@, trailers@.len() as int) == Err::<
                Seq<u8>,
                RejectReason,
            >(e),
        },
{
    let slots = trailers.slots();
    let mut i: usize = 0;
    while i < slots.len()
        invariant
            i <= slots@.len() == trailers@.len(),
            forall|j: int|
                0 <= j < slots@.len() ==> (#[trigger] slots@[j])@ == trailers@[j].known(),
            trailer_lines(trailers@, i as int) is Ok,
        decreases slots@.len() - i,
    {
        assert(slots@[i as int]@ == trailers@[i as int].known());
        proof {
            if trailer_lines(trailers@, i + 1) is Err {
                lemma_trailer_lines_error(trailers@, i + 1, trailers@.len() as int);
            }
        }
        if trailer_denied(slots[i].known()) {
            return Err(RejectReason::TrailerFieldForbidden);
        }
        match (trailers.name_at(i), trailers.value_at(i)) {
            (Some(name), Some(value)) => {
                assert(Field { name: name@, value: value@ } == trailers@[i as int]);
                check_egress(name, value)?;
            },
            _ => {
                return Err(RejectReason::FieldNameInvalidByte);
            },
        }
        i += 1;
    }
    Ok(())
}

/// Appends one field line.
fn put_field(out: &mut BytesMut, name: &[u8], value: &[u8])
    requires
        has_room(
            content(*old(out)).len() as int,
            field_text(Field { name: name@, value: value@ }).len() as int,
        ),
    ensures
        content(*final(out)) == content(*old(out)) + field_text(
            Field { name: name@, value: value@ },
        ),
{
    let ghost before = content(*out);
    out.extend_from_slice(name);
    put_text(out, ": ");
    out.extend_from_slice(value);
    put_text(out, "\r\n");
    assert(content(*out) =~= before + field_text(Field { name: name@, value: value@ }));
}

fn write_trailers(trailers: &FieldSection, out: &mut BytesMut)
    requires
        last_chunk_text(trailers@) is Ok,
        has_room(
            content(*old(out)).len() as int,
            (last_chunk_text(trailers@)->Ok_0).len() as int,
        ),
    ensures
        content(*final(out)) == content(*old(out)) + last_chunk_text(trailers@)->Ok_0,
{
    let ghost before = content(*out);
    let ghost lines = trailer_lines(trailers@, trailers@.len() as int)->Ok_0;
    put_text(out, "0\r\n");
    let ghost head = content(*out);
    let n: usize = trailers.len();
    let mut i: usize = 0;
    assert(head + trailer_lines(trailers@, 0)->Ok_0 =~= head);
    while i < n
        invariant
            i <= n,
            n == trailers@.len(),
            trailer_lines(trailers@, n as int) == Ok::<Seq<u8>, RejectReason>(lines),
            has_room(head.len() as int, (lines.len() + line_end().len()) as int),
            trailer_lines(trailers@, i as int) is Ok,
            content(*out) == head + trailer_lines(trailers@, i as int)->Ok_0,
        decreases n - i,
    {
        proof {
            lemma_trailer_lines_prefix(trailers@, i + 1, n as int);
        }
        match (trailers.name_at(i), trailers.value_at(i)) {
            (Some(name), Some(value)) => {
                assert(Field { name: name@, value: value@ } == trailers@[i as int]);
                put_field(out, name, value);
            },
            _ => {},
        }
        assert(content(*out) =~= head + trailer_lines(trailers@, i + 1)->Ok_0);
        i += 1;
    }
    put_text(out, "\r\n");
    assert(content(*out) =~= before + last_chunk_text(trailers@)->Ok_0);
}

// ---- parts of a head ----

/// The target of a request line. `CONNECT` names its port even if it is the
/// default. The absolute form is never written.
pub open spec fn target_form_text(req: CanonicalRequest, form: TargetForm) -> Result<
    Seq<u8>,
    RejectReason,
> {
    match form {
        TargetForm::Origin => Ok(req.target_spec()),
        TargetForm::Asterisk => Ok(seq!['*' as u8]),
        TargetForm::Authority => Ok(authority_target(req.authority@, req.scheme)),
        TargetForm::Absolute => Err(RejectReason::TargetFormInvalid),
    }
}

/// `host:port`, always with a port.
pub open spec fn authority_target(a: AuthorityView, scheme: Scheme) -> Seq<u8> {
    a.host.push(':' as u8) + dec_text(
        (match a.port {
            Some(p) => p,
            None => scheme.default_port_spec(),
        }) as nat,
    )
}

fn write_authority_target(authority: &Authority, scheme: Scheme, out: &mut BytesMut)
    requires
        has_room(
            content(*old(out)).len() as int,
            authority_target(authority@, scheme).len() as int,
        ),
    ensures
        content(*final(out)) == content(*old(out)) + authority_target(authority@, scheme),
{
    let ghost before = content(*out);
    out.extend_from_slice(authority.host());
    put_u8(out, ':' as u8);
    let _digits: usize = put_decimal(out, authority.effective_port(scheme) as u64);
    assert(content(*out) =~= before + authority_target(authority@, scheme));
}

fn authority_target_len(authority: &Authority, scheme: Scheme) -> (r: usize)
    ensures
        r == authority_target(authority@, scheme).len(),
        r <= u16::MAX + 21,
{
    authority.host().len() + 1 + decimal_len(authority.effective_port(scheme) as u64)
}

fn write_target_form(req: &CanonicalRequest, form: TargetForm, out: &mut BytesMut)
    requires
        target_form_text(*req, form) is Ok,
        has_room(
            content(*old(out)).len() as int,
            (target_form_text(*req, form)->Ok_0).len() as int,
        ),
    ensures
        content(*final(out)) == content(*old(out)) + target_form_text(*req, form)->Ok_0,
{
    match form {
        TargetForm::Origin => {
            let _n: usize = req.write_target(out);
        },
        TargetForm::Asterisk => {
            let ghost before = content(*out);
            put_u8(out, '*' as u8);
            assert(content(*out) =~= before + seq!['*' as u8]);
        },
        TargetForm::Authority => write_authority_target(&req.authority, req.scheme, out),
        TargetForm::Absolute => {},
    }
}

fn target_form_len(req: &CanonicalRequest, form: TargetForm) -> (r: Result<usize, RejectReason>)
    ensures
        match r {
            Ok(n) => target_form_text(*req, form) is Ok && n == sat_len(
                (target_form_text(*req, form)->Ok_0).len() as int,
            ),
            Err(e) => target_form_text(*req, form) == Err::<Seq<u8>, RejectReason>(e),
        },
{
    match form {
        TargetForm::Origin => Ok(req.target_len()),
        TargetForm::Asterisk => Ok(1),
        TargetForm::Authority => Ok(authority_target_len(&req.authority, req.scheme)),
        TargetForm::Absolute => Err(RejectReason::TargetFormInvalid),
    }
}

/// The framing field for a body.
pub open spec fn framing_text(body: BodySource) -> Seq<u8> {
    match body {
        BodySource::Empty => Seq::empty(),
        BodySource::Exact { len } => ascii("Content-Length: "@) + dec_text(len as nat)
            + line_end(),
        BodySource::Streaming => ascii("Transfer-Encoding: chunked\r\n"@),
    }
}

fn framing_len(body: BodySource) -> (r: usize)
    ensures
        r == framing_text(body).len(),
        r <= 100,
{
    proof {
        lemma_literals();
    }
    match body {
        BodySource::Empty => 0,
        BodySource::Exact { len } => text_len("Content-Length: ") + decimal_len(len) + text_len(
            "\r\n",
        ),
        BodySource::Streaming => text_len("Transfer-Encoding: chunked\r\n"),
    }
}

fn write_framing(body: BodySource, out: &mut BytesMut)
    requires
        has_room(content(*old(out)).len() as int, framing_text(body).len() as int),
    ensures
        content(*final(out)) == content(*old(out)) + framing_text(body),
{
    let ghost before = content(*out);
    match body {
        BodySource::Empty => {},
        BodySource::Exact { len } => {
            put_text(out, "Content-Length: ");
            let _digits: usize = put_decimal(out, len);
            put_text(out, "\r\n");
        },
        BodySource::Streaming => put_text(out, "Transfer-Encoding: chunked\r\n"),
    }
    assert(content(*out) =~= before + framing_text(body));
}

/// The `Connection` field of a request.
pub open spec fn connection_text(mode: ConnectionMode) -> Seq<u8> {
    match mode {
        ConnectionMode::KeepAlive => Seq::empty(),
        ConnectionMode::Close => ascii("Connection: close\r\n"@),
    }
}

fn connection_field_len(mode: ConnectionMode) -> (r: usize)
    ensures
        r == connection_text(mode).len(),
{
    match mode {
        ConnectionMode::KeepAlive => 0,
        ConnectionMode::Close => text_len("Connection: close\r\n"),
    }
}

fn write_connection(mode: ConnectionMode, out: &mut BytesMut)
    requires
        has_room(content(*old(out)).len() as int, connection_text(mode).len() as int),
    ensures
        content(*final(out)) == content(*old(out)) + connection_text(mode),
{
    let ghost before = content(*out);
    if matches!(mode, ConnectionMode::Close) {
        put_text(out, "Connection: close\r\n");
    }
    assert(content(*out) =~= before + connection_text(mode));
}

/// Whether a framing field is among the fields.
pub open spec fn has_framing_field(fields: Seq<Field>) -> bool {
    values_of(fields, KnownHeader::ContentLength).len() > 0 || values_of(
        fields,
        KnownHeader::TransferEncoding,
    ).len() > 0
}

fn framing_field_present(headers: &FieldSection) -> (r: bool)
    ensures
        r == has_framing_field(headers@),
{
    headers.count_known(KnownHeader::ContentLength) > 0 || headers.count_known(
        KnownHeader::TransferEncoding,
    ) > 0
}

/// Whether a field is left out without a word: `Host` is written from the
/// authority, and `te` is not forwarded.
pub open spec fn skipped(k: KnownHeader) -> bool {
    k is Te || k is Host
}

fn skip_field(k: KnownHeader) -> (r: bool)
    ensures
        r == skipped(k),
{
    matches!(k, KnownHeader::Te | KnownHeader::Host)
}

/// Whether a name is reserved in a message of this direction.
pub open spec fn reserved(name: Seq<u8>, response: bool) -> bool {
    if response {
        response_reserved_prefix(name)
    } else {
        reserved_prefix(name)
    }
}

fn is_reserved(name: &[u8], response: bool) -> (r: bool)
    ensures
        r == reserved(name@, response),
{
    if response {
        is_response_reserved_prefix(name)
    } else {
        is_reserved_prefix(name)
    }
}

/// The line of one end-to-end field, nothing for one that is left out, or a
/// refusal.
pub open spec fn end_to_end_text(f: Field, response: bool) -> Result<Seq<u8>, RejectReason> {
    if hop_by_hop(f.known()) {
        Err(RejectReason::ConnectionSpecificField)
    } else if skipped(f.known()) || reserved(f.name, response) {
        Ok(Seq::empty())
    } else if egress_error(f) is Some {
        Err(egress_error(f)->Some_0)
    } else {
        Ok(field_text(f))
    }
}

/// The lines of the first `n` fields, or why one of them is refused.
pub open spec fn fields_text(fields: Seq<Field>, n: int, response: bool) -> Result<
    Seq<u8>,
    RejectReason,
>
    decreases n,
{
    if n <= 0 {
        Ok(Seq::empty())
    } else {
        match fields_text(fields, n - 1, response) {
            Err(e) => Err(e),
            Ok(t) => match end_to_end_text(fields[n - 1], response) {
                Err(e) => Err(e),
                Ok(x) => Ok(t + x),
            },
        }
    }
}

proof fn lemma_fields_text_error(fields: Seq<Field>, n: int, m: int, response: bool)
    requires
        0 <= n <= m,
        fields_text(fields, n, response) is Err,
    ensures
        fields_text(fields, m, response) == fields_text(fields, n, response),
    decreases m,
{
    if n < m {
        lemma_fields_text_error(fields, n, m - 1, response);
    }
}

proof fn lemma_fields_text_prefix(fields: Seq<Field>, n: int, m: int, response: bool)
    requires
        0 <= n <= m,
        fields_text(fields, m, response) is Ok,
    ensures
        fields_text(fields, n, response) is Ok,
        (fields_text(fields, n, response)->Ok_0).len() <= (fields_text(
            fields,
            m,
            response,
        )->Ok_0).len(),
    decreases m,
{
    if n < m {
        lemma_fields_text_prefix(fields, n, m - 1, response);
    }
}

fn end_to_end_fields_len(headers: &FieldSection, response: bool) -> (r: Result<
    usize,
    RejectReason,
>)
    ensures
        match r {
            Ok(n) => {
                &&& fields_text(headers@, headers@.len() as int, response) is Ok
                &&& n == sat_len(
                    (fields_text(headers@, headers@.len() as int, response)->Ok_0).len() as int,
                )
            },
            Err(e) => fields_text(headers@, headers@.len() as int, response) == Err::<
                Seq<u8>,
                RejectReason,
            >(e),
        },
{
    let slots = headers.slots();
    let mut len: usize = 0;
    let mut i: usize = 0;
    while i < slots.len()
        invariant
            i <= slots@.len() == headers@.len(),
            forall|j: int|
                0 <= j < slots@.len() ==> (#[trigger] slots@[j])@ == headers@[j].known(),
            fields_text(headers@, i as int, response) is Ok,
            len == sat_len((fields_text(headers@, i as int, response)->Ok_0).len() as int),
        decreases slots@.len() - i,
    {
        let known = slots[i].known();
        assert(slots@[i as int]@ == headers@[i as int].known());
        proof {
            if fields_text(headers@, i + 1, response) is Err {
                lemma_fields_text_error(headers@, i + 1, headers@.len() as int, response);
            }
        }
        if is_hop_by_hop(known) {
            return Err(RejectReason::ConnectionSpecificField);
        }
        if !skip_field(known) {
            match (headers.name_at(i), headers.value_at(i)) {
                (Some(name), Some(value)) => {
                    assert(Field { name: name@, value: value@ } == headers@[i as int]);
                    if !is_reserved(name, response) {
                        check_egress(name, value)?;
                        len = len.saturating_add(name.len()).saturating_add(
                            text_len(": "),
                        ).saturating_add(value.len()).saturating_add(text_len("\r\n"));
                    }
                },
                _ => {
                    return Err(RejectReason::FieldNameInvalidByte);
                },
            }
        }
        i += 1;
    }
    Ok(len)
}

fn write_end_to_end_fields(headers: &FieldSection, response: bool, out: &mut BytesMut)
    requires
        fields_text(headers@, headers@.len() as int, response) is Ok,
        has_room(
            content(*old(out)).len() as int,
            (fields_text(headers@, headers@.len() as int, response)->Ok_0).len() as int,
        ),
    ensures
        content(*final(out)) == content(*old(out)) + fields_text(
            headers@,
            headers@.len() as int,
            response,
        )->Ok_0,
{
    let slots = headers.slots();
    let ghost before = content(*out);
    let ghost whole = fields_text(headers@, headers@.len() as int, response)->Ok_0;
    let mut i: usize = 0;
    assert(before + fields_text(headers@, 0, response)->Ok_0 =~= before);
    while i < slots.len()
        invariant
            i <= slots@.len() == headers@.len(),
            forall|j: int|
                0 <= j < slots@.len() ==> (#[trigger] slots@[j])@ == headers@[j].known(),
            fields_text(headers@, headers@.len() as int, response) == Ok::<Seq<u8>, RejectReason>(
                whole,
            ),
            has_room(before.len() as int, whole.len() as int),
            fields_text(headers@, i as int, response) is Ok,
            content(*out) == before + fields_text(headers@, i as int, response)->Ok_0,
        decreases slots@.len() - i,
    {
        let known = slots[i].known();
        assert(slots@[i as int]@ == headers@[i as int].known());
        proof {
            lemma_fields_text_prefix(headers@, i + 1, headers@.len() as int, response);
        }
        if !skip_field(known) {
            match (headers.name_at(i), headers.value_at(i)) {
                (Some(name), Some(value)) => {
                    assert(Field { name: name@, value: value@ } == headers@[i as int]);
                    if !is_reserved(name, response) {
                        put_field(out, name, value);
                    }
                },
                _ => {},
            }
        }
        assert(content(*out) =~= before + fields_text(headers@, i + 1, response)->Ok_0);
        i += 1;
    }
}

proof fn lemma_literals()
    ensures
        line_end().len() == 2,
        ascii(": "@).len() == 2,
        ascii(" "@).len() == 1,
        ascii(" HTTP/1.1\r\n"@).len() == 11,
        ascii("HTTP/1.1 "@).len() == 9,
        ascii("Host: "@).len() == 6,
        ascii("Content-Length: "@).len() == 16,
        ascii("Transfer-Encoding: chunked\r\n"@).len() == 28,
        ascii("Connection: close\r\n"@).len() == 19,
{
    reveal_strlit("\r\n");
    reveal_strlit(": ");
    reveal_strlit(" ");
    reveal_strlit(" HTTP/1.1\r\n");
    reveal_strlit("HTTP/1.1 ");
    reveal_strlit("Host: ");
    reveal_strlit("Content-Length: ");
    reveal_strlit("Transfer-Encoding: chunked\r\n");
    reveal_strlit("Connection: close\r\n");
    lemma_ascii("\r\n"@);
    lemma_ascii(": "@);
    lemma_ascii(" "@);
    lemma_ascii(" HTTP/1.1\r\n"@);
    lemma_ascii("HTTP/1.1 "@);
    lemma_ascii("Host: "@);
    lemma_ascii("Content-Length: "@);
    lemma_ascii("Transfer-Encoding: chunked\r\n"@);
    lemma_ascii("Connection: close\r\n"@);
}

// ---- request heads ----

/// The `X-Forwarded-` fields: the client, the scheme, the host, and the
/// client's port where it is known.
pub open spec fn x_forwarded_text(
    peer: PeerIdentity,
    scheme: Scheme,
    authority: AuthorityView,
) -> Seq<u8> {
    ascii("X-Forwarded-For: "@) + node_text(peer.client, None) + line_end() + ascii(
        "X-Forwarded-Proto: "@,
    ) + scheme.bytes_spec() + line_end() + ascii("X-Forwarded-Host: "@) + authority_text(authority)
        + line_end() + match peer.client_port {
        None => Seq::empty(),
        Some(p) => ascii("X-Forwarded-Port: "@) + dec_text(p as nat) + line_end(),
    }
}

/// What tells the upstream about the client.
#[verifier::opaque]
pub open spec fn emit_text(req: CanonicalRequest, emit: ForwardEmit, local: SocketAddr) -> Seq<u8> {
    (if emit.emit_forwarded {
        ascii("Forwarded: "@) + forwarded_text(req.peer, local, req.scheme, req.authority@)
            + line_end()
    } else {
        Seq::empty()
    }) + if emit.emit_x_forwarded {
        x_forwarded_text(req.peer, req.scheme, req.authority@)
    } else {
        Seq::empty()
    }
}

/// The request line and `Host`.
#[verifier::opaque]
pub open spec fn request_start_text(
    method: Seq<u8>,
    target: Seq<u8>,
    authority: AuthorityView,
) -> Seq<u8> {
    method + ascii(" "@) + target + ascii(" HTTP/1.1\r\n"@) + ascii("Host: "@) + authority_text(
        authority,
    ) + line_end()
}

/// A request head on the wire: the request line, `Host`, the framing field,
/// `Connection`, what tells about the client, the end-to-end fields and a
/// blank line.
pub open spec fn request_head_text(
    req: CanonicalRequest,
    form: TargetForm,
    body: BodySource,
    keep_alive: ConnectionMode,
    emit: ForwardEmit,
    local: SocketAddr,
) -> Result<Seq<u8>, RejectReason> {
    match target_form_text(req, form) {
        Err(e) => Err(e),
        Ok(target) => if has_framing_field(req.headers@) {
            Err(RejectReason::ConnectionSpecificField)
        } else {
            match fields_text(req.headers@, req.headers@.len() as int, false) {
                Err(e) => Err(e),
                Ok(fields) => Ok(
                    request_start_text(req.method.bytes_spec(), target, req.authority@)
                        + framing_text(body) + connection_text(keep_alive) + emit_text(
                        req,
                        emit,
                        local,
                    ) + fields + line_end(),
                ),
            }
        },
    }
}

fn x_forwarded_len(req: &CanonicalRequest) -> (r: usize)
    ensures
        r == sat_len(
            x_forwarded_text(req.peer, req.scheme, req.authority@).len() as int,
        ),
{
    let mut len: usize = text_len("X-Forwarded-For: ");
    len = len.saturating_add(node_len(req.peer.client, None)).saturating_add(text_len("\r\n"));
    len = len.saturating_add(text_len("X-Forwarded-Proto: ")).saturating_add(
        req.scheme.as_bytes().len(),
    ).saturating_add(text_len("\r\n"));
    len = len.saturating_add(text_len("X-Forwarded-Host: ")).saturating_add(
        req.authority.written_len(),
    ).saturating_add(text_len("\r\n"));
    if let Some(port) = req.peer.client_port {
        len = len.saturating_add(text_len("X-Forwarded-Port: ")).saturating_add(
            decimal_len(port as u64),
        ).saturating_add(text_len("\r\n"));
    }
    len
}

fn write_x_forwarded(req: &CanonicalRequest, out: &mut BytesMut)
    requires
        has_room(
            content(*old(out)).len() as int,
            x_forwarded_text(req.peer, req.scheme, req.authority@).len() as int,
        ),
    ensures
        content(*final(out)) == content(*old(out)) + x_forwarded_text(
            req.peer,
            req.scheme,
            req.authority@,
        ),
{
    let ghost before = content(*out);
    put_text(out, "X-Forwarded-For: ");
    let _a: usize = write_node(req.peer.client, None, out);
    put_text(out, "\r\n");
    put_text(out, "X-Forwarded-Proto: ");
    out.extend_from_slice(req.scheme.as_bytes());
    put_text(out, "\r\n");
    put_text(out, "X-Forwarded-Host: ");
    let _b: usize = req.authority.write_to(out);
    put_text(out, "\r\n");
    if let Some(port) = req.peer.client_port {
        put_text(out, "X-Forwarded-Port: ");
        let _c: usize = put_decimal(out, port as u64);
        put_text(out, "\r\n");
    }
    assert(content(*out) =~= before + x_forwarded_text(req.peer, req.scheme, req.authority@));
}

fn request_start_len(req: &CanonicalRequest, form: TargetForm) -> (r: Result<usize, RejectReason>)
    ensures
        match r {
            Ok(n) => target_form_text(*req, form) is Ok && n == sat_len(
                request_start_text(
                    req.method.bytes_spec(),
                    target_form_text(*req, form)->Ok_0,
                    req.authority@,
                ).len() as int,
            ),
            Err(e) => target_form_text(*req, form) == Err::<Seq<u8>, RejectReason>(e),
        },
{
    proof {
        reveal(request_start_text);
    }
    let target: usize = target_form_len(req, form)?;
    let mut len: usize = req.method.as_bytes().len();
    len = len.saturating_add(text_len(" ")).saturating_add(target).saturating_add(
        text_len(" HTTP/1.1\r\n"),
    );
    len = len.saturating_add(text_len("Host: ")).saturating_add(
        req.authority.written_len(),
    ).saturating_add(text_len("\r\n"));
    Ok(len)
}

fn write_request_start(req: &CanonicalRequest, form: TargetForm, out: &mut BytesMut)
    requires
        target_form_text(*req, form) is Ok,
        has_room(
            content(*old(out)).len() as int,
            request_start_text(
                req.method.bytes_spec(),
                target_form_text(*req, form)->Ok_0,
                req.authority@,
            ).len() as int,
        ),
    ensures
        content(*final(out)) == content(*old(out)) + request_start_text(
            req.method.bytes_spec(),
            target_form_text(*req, form)->Ok_0,
            req.authority@,
        ),
{
    proof {
        reveal(request_start_text);
    }
    let ghost before = content(*out);
    out.extend_from_slice(req.method.as_bytes());
    put_text(out, " ");
    write_target_form(req, form, out);
    put_text(out, " HTTP/1.1\r\n");
    put_text(out, "Host: ");
    let _host: usize = req.authority.write_to(out);
    put_text(out, "\r\n");
    assert(content(*out) =~= before + request_start_text(
        req.method.bytes_spec(),
        target_form_text(*req, form)->Ok_0,
        req.authority@,
    ));
}

fn emit_len(req: &CanonicalRequest, emit: ForwardEmit, local: SocketAddr) -> (r: usize)
    ensures
        r == sat_len(emit_text(*req, emit, local).len() as int),
{
    proof {
        reveal(emit_text);
    }
    let mut len: usize = 0;
    if emit.emit_forwarded {
        len = text_len("Forwarded: ").saturating_add(
            forwarded_element_len(&req.peer, local, req.scheme, &req.authority),
        ).saturating_add(text_len("\r\n"));
    }
    if emit.emit_x_forwarded {
        len = len.saturating_add(x_forwarded_len(req));
    }
    len
}

fn write_emit(req: &CanonicalRequest, emit: ForwardEmit, local: SocketAddr, out: &mut BytesMut)
    requires
        has_room(content(*old(out)).len() as int, emit_text(*req, emit, local).len() as int),
    ensures
        content(*final(out)) == content(*old(out)) + emit_text(*req, emit, local),
{
    proof {
        reveal(emit_text);
    }
    let ghost before = content(*out);
    if emit.emit_forwarded {
        put_text(out, "Forwarded: ");
        write_forwarded_element(&req.peer, local, req.scheme, &req.authority, out);
        put_text(out, "\r\n");
    }
    if emit.emit_x_forwarded {
        write_x_forwarded(req, out);
    }
    assert(content(*out) =~= before + emit_text(*req, emit, local));
}

/// The number of bytes that [`serialize_request_head`] writes, without
/// writing anything.
pub fn serialize_request_head_len(
    req: &CanonicalRequest,
    form: TargetForm,
    body: BodySource,
    keep_alive: ConnectionMode,
    emit: ForwardEmit,
    local: SocketAddr,
) -> (r: Result<usize, RejectReason>)
    ensures
        match r {
            Ok(n) => {
                &&& request_head_text(*req, form, body, keep_alive, emit, local) is Ok
                &&& n == sat_len(
                    (request_head_text(
                        *req,
                        form,
                        body,
                        keep_alive,
                        emit,
                        local,
                    )->Ok_0).len() as int,
                )
            },
            Err(e) => request_head_text(*req, form, body, keep_alive, emit, local) == Err::<
                Seq<u8>,
                RejectReason,
            >(e),
        },
{
    let mut len: usize = request_start_len(req, form)?;
    if framing_field_present(&req.headers) {
        return Err(RejectReason::ConnectionSpecificField);
    }
    len = len.saturating_add(framing_len(body)).saturating_add(connection_field_len(keep_alive));
    len = len.saturating_add(emit_len(req, emit, local));
    len = len.saturating_add(end_to_end_fields_len(&req.headers, false)?);
    len = len.saturating_add(text_len("\r\n"));
    Ok(len)
}

/// Appends a request head, without the body, and returns the number of bytes
/// written. What is refused leaves `out` as it was.
pub fn serialize_request_head(
    req: &CanonicalRequest,
    form: TargetForm,
    body: BodySource,
    keep_alive: ConnectionMode,
    emit: ForwardEmit,
    local: SocketAddr,
    out: &mut BytesMut,
) -> (r: Result<usize, RejectReason>)
    requires
        request_head_text(*req, form, body, keep_alive, emit, local) matches Ok(t) ==> has_room(
            content(*old(out)).len() as int,
            t.len() as int,
        ),
    ensures
        match r {
            Ok(n) => {
                &&& request_head_text(*req, form, body, keep_alive, emit, local) is Ok
                &&& content(*final(out)) == content(*old(out)) + request_head_text(
                    *req,
                    form,
                    body,
                    keep_alive,
                    emit,
                    local,
                )->Ok_0
                &&& n == (request_head_text(
                    *req,
                    form,
                    body,
                    keep_alive,
                    emit,
                    local,
                )->Ok_0).len()
            },
            Err(e) => {
                &&& request_head_text(*req, form, body, keep_alive, emit, local) == Err::<
                    Seq<u8>,
                    RejectReason,
                >(e)
                &&& content(*final(out)) == content(*old(out))
            },
        },
{
    let _len: usize = serialize_request_head_len(req, form, body, keep_alive, emit, local)?;
    let start: usize = out.len();
    write_request_head(req, form, body, keep_alive, emit, local, out);
    Ok(out.len() - start)
}

fn write_request_head(
    req: &CanonicalRequest,
    form: TargetForm,
    body: BodySource,
    keep_alive: ConnectionMode,
    emit: ForwardEmit,
    local: SocketAddr,
    out: &mut BytesMut,
)
    requires
        request_head_text(*req, form, body, keep_alive, emit, local) is Ok,
        has_room(
            content(*old(out)).len() as int,
            (request_head_text(*req, form, body, keep_alive, emit, local)->Ok_0).len() as int,
        ),
    ensures
        content(*final(out)) == content(*old(out)) + request_head_text(
            *req,
            form,
            body,
            keep_alive,
            emit,
            local,
        )->Ok_0,
{
    let ghost before = content(*out);
    let ghost whole = request_head_text(*req, form, body, keep_alive, emit, local)->Ok_0;
    write_request_start(req, form, out);
    write_framing(body, out);
    write_connection(keep_alive, out);
    write_emit(req, emit, local, out);
    write_end_to_end_fields(&req.headers, false, out);
    put_text(out, "\r\n");
    assert(content(*out) =~= before + whole);
}

// ---- response heads ----

/// Whether the status alone says that no body follows: 1xx, 204 and 304, and
/// success in answer to `CONNECT`.
pub open spec fn bodyless(status: u16, method: Method) -> bool {
    ||| 100 <= status <= 199
    ||| status == 204
    ||| status == 304
    ||| 200 <= status <= 299 && method is Connect
}

fn is_bodyless_by_status(status: u16, method: &Method) -> (r: bool)
    ensures
        r == bodyless(status, *method),
{
    100 <= status && status <= 199 || status == 204 || status == 304 || 200 <= status && status
        <= 299 && method.is_connect()
}

/// The framing field of a response: none where the status rules out a body;
/// in answer to `HEAD` only the length that a body would have had.
pub open spec fn response_framing_text(status: u16, method: Method, body: BodySource) -> Seq<u8> {
    if bodyless(status, method) {
        Seq::empty()
    } else if method is Head && !(body is Exact) {
        Seq::empty()
    } else {
        framing_text(body)
    }
}

/// The body source that the framing field of a response is written from.
fn effective_body(status: u16, method: &Method, body: BodySource) -> (r: BodySource)
    ensures
        framing_text(r) == response_framing_text(status, *method, body),
{
    if is_bodyless_by_status(status, method) {
        return BodySource::Empty;
    }
    if method.is_head() && !matches!(body, BodySource::Exact { .. }) {
        return BodySource::Empty;
    }
    body
}

/// The `Connection` field of a response.
pub open spec fn response_connection_text(keep_alive: bool, version: WireVersion) -> Seq<u8> {
    if !keep_alive {
        ascii("Connection: close\r\n"@)
    } else if version is Http10 {
        ascii("Connection: keep-alive\r\n"@)
    } else {
        Seq::empty()
    }
}

/// The reason phrase for a status; most numbers have none.
pub open spec fn reason_text(code: u16) -> Seq<u8> {
    match code {
        100 => ascii("Continue"@),
        101 => ascii("Switching Protocols"@),
        103 => ascii("Early Hints"@),
        200 => ascii("OK"@),
        201 => ascii("Created"@),
        202 => ascii("Accepted"@),
        203 => ascii("Non-Authoritative Information"@),
        204 => ascii("No Content"@),
        205 => ascii("Reset Content"@),
        206 => ascii("Partial Content"@),
        300 => ascii("Multiple Choices"@),
        301 => ascii("Moved Permanently"@),
        302 => ascii("Found"@),
        303 => ascii("See Other"@),
        304 => ascii("Not Modified"@),
        305 => ascii("Use Proxy"@),
        307 => ascii("Temporary Redirect"@),
        308 => ascii("Permanent Redirect"@),
        400 => ascii("Bad Request"@),
        401 => ascii("Unauthorized"@),
        402 => ascii("Payment Required"@),
        403 => ascii("Forbidden"@),
        404 => ascii("Not Found"@),
        405 => ascii("Method Not Allowed"@),
        406 => ascii("Not Acceptable"@),
        407 => ascii("Proxy Authentication Required"@),
        408 => ascii("Request Timeout"@),
        409 => ascii("Conflict"@),
        410 => ascii("Gone"@),
        411 => ascii("Length Required"@),
        412 => ascii("Precondition Failed"@),
        413 => ascii("Content Too Large"@),
        414 => ascii("URI Too Long"@),
        415 => ascii("Unsupported Media Type"@),
        416 => ascii("Range Not Satisfiable"@),
        417 => ascii("Expectation Failed"@),
        421 => ascii("Misdirected Request"@),
        422 => ascii("Unprocessable Content"@),
        426 => ascii("Upgrade Required"@),
        429 => ascii("Too Many Requests"@),
        431 => ascii("Request Header Fields Too Large"@),
        451 => ascii("Unavailable For Legal Reasons"@),
        500 => ascii("Internal Server Error"@),
        501 => ascii("Not Implemented"@),
        502 => ascii("Bad Gateway"@),
        503 => ascii("Service Unavailable"@),
        504 => ascii("Gateway Timeout"@),
        505 => ascii("HTTP Version Not Supported"@),
        511 => ascii("Network Authentication Required"@),
        _ => Seq::empty(),
    }
}

/// The reason phrase for a status; empty where there is none.
#[must_use]
pub fn canonical_reason(code: u16) -> (r: &'static [u8])
    ensures
        r@ == reason_text(code),
{
    match code {
        100 => "Continue".as_bytes(),
        101 => "Switching Protocols".as_bytes(),
        103 => "Early Hints".as_bytes(),
        200 => "OK".as_bytes(),
        201 => "Created".as_bytes(),
        202 => "Accepted".as_bytes(),
        203 => "Non-Authoritative Information".as_bytes(),
        204 => "No Content".as_bytes(),
        205 => "Reset Content".as_bytes(),
        206 => "Partial Content".as_bytes(),
        300 => "Multiple Choices".as_bytes(),
        301 => "Moved Permanently".as_bytes(),
        302 => "Found".as_bytes(),
        303 => "See Other".as_bytes(),
        304 => "Not Modified".as_bytes(),
        305 => "Use Proxy".as_bytes(),
        307 => "Temporary Redirect".as_bytes(),
        308 => "Permanent Redirect".as_bytes(),
        400 => "Bad Request".as_bytes(),
        401 => "Unauthorized".as_bytes(),
        402 => "Payment Required".as_bytes(),
        403 => "Forbidden".as_bytes(),
        404 => "Not Found".as_bytes(),
        405 => "Method Not Allowed".as_bytes(),
        406 => "Not Acceptable".as_bytes(),
        407 => "Proxy Authentication Required".as_bytes(),
        408 => "Request Timeout".as_bytes(),
        409 => "Conflict".as_bytes(),
        410 => "Gone".as_bytes(),
        411 => "Length Required".as_bytes(),
        412 => "Precondition Failed".as_bytes(),
        413 => "Content Too Large".as_bytes(),
        414 => "URI Too Long".as_bytes(),
        415 => "Unsupported Media Type".as_bytes(),
        416 => "Range Not Satisfiable".as_bytes(),
        417 => "Expectation Failed".as_bytes(),
        421 => "Misdirected Request".as_bytes(),
        422 => "Unprocessable Content".as_bytes(),
        426 => "Upgrade Required".as_bytes(),
        429 => "Too Many Requests".as_bytes(),
        431 => "Request Header Fields Too Large".as_bytes(),
        451 => "Unavailable For Legal Reasons".as_bytes(),
        500 => "Internal Server Error".as_bytes(),
        501 => "Not Implemented".as_bytes(),
        502 => "Bad Gateway".as_bytes(),
        503 => "Service Unavailable".as_bytes(),
        504 => "Gateway Timeout".as_bytes(),
        505 => "HTTP Version Not Supported".as_bytes(),
        511 => "Network Authentication Required".as_bytes(),
        _ => {
            let empty: &'static [u8] = &[];
            assert(empty@ =~= Seq::<u8>::empty());
            empty
        },
    }
}

/// The three digits of a status.
pub open spec fn status_text(code: u16) -> Seq<u8> {
    seq![
        ('0' as u8 + code / 100) as u8,
        ('0' as u8 + code / 10 % 10) as u8,
        ('0' as u8 + code % 10) as u8,
    ]
}

fn write_status_code(code: u16, out: &mut BytesMut)
    requires
        100 <= code <= 599,
        has_room(content(*old(out)).len() as int, 3),
    ensures
        content(*final(out)) == content(*old(out)) + status_text(code),
{
    let ghost before = content(*out);
    put_u8(out, '0' as u8 + (code / 100) as u8);
    put_u8(out, '0' as u8 + (code / 10 % 10) as u8);
    put_u8(out, '0' as u8 + (code % 10) as u8);
    assert(content(*out) =~= before + status_text(code));
}

/// A response head on the wire: the status line, the framing field,
/// `Connection`, the end-to-end fields and a blank line.
pub open spec fn response_head_text(
    res: CanonicalResponse,
    method: Method,
    body: BodySource,
    keep_alive: bool,
) -> Result<Seq<u8>, RejectReason> {
    match fields_text(res.headers@, res.headers@.len() as int, true) {
        Err(e) => Err(e),
        Ok(fields) => Ok(
            ascii("HTTP/1.1 "@) + status_text(res.status@) + ascii(" "@) + reason_text(res.status@)
                + line_end() + response_framing_text(res.status@, method, body)
                + response_connection_text(keep_alive, res.version) + fields + line_end(),
        ),
    }
}

fn response_connection_len(keep_alive: bool, version: WireVersion) -> (r: usize)
    ensures
        r == response_connection_text(keep_alive, version).len(),
{
    if !keep_alive {
        text_len("Connection: close\r\n")
    } else if matches!(version, WireVersion::Http10) {
        text_len("Connection: keep-alive\r\n")
    } else {
        0
    }
}

/// The number of bytes that [`serialize_response_head`] writes, without
/// writing anything.
pub fn serialize_response_head_len(
    res: &CanonicalResponse,
    request_method: Method,
    body: BodySource,
    keep_alive: bool,
) -> (r: Result<usize, RejectReason>)
    ensures
        match r {
            Ok(n) => {
                &&& response_head_text(*res, request_method, body, keep_alive) is Ok
                &&& n == sat_len(
                    (response_head_text(
                        *res,
                        request_method,
                        body,
                        keep_alive,
                    )->Ok_0).len() as int,
                )
            },
            Err(e) => response_head_text(*res, request_method, body, keep_alive) == Err::<
                Seq<u8>,
                RejectReason,
            >(e),
        },
{
    let code: u16 = res.status.as_u16();
    let mut len: usize = text_len("HTTP/1.1 ");
    len = len.saturating_add(3).saturating_add(text_len(" ")).saturating_add(
        canonical_reason(code).len(),
    ).saturating_add(text_len("\r\n"));
    len = len.saturating_add(framing_len(effective_body(code, &request_method, body)));
    len = len.saturating_add(response_connection_len(keep_alive, res.version));
    len = len.saturating_add(end_to_end_fields_len(&res.headers, true)?);
    len = len.saturating_add(text_len("\r\n"));
    Ok(len)
}

/// Appends a response head, without the body, and returns the number of bytes
/// written. What is refused leaves `out` as it was.
pub fn serialize_response_head(
    res: &CanonicalResponse,
    request_method: Method,
    body: BodySource,
    keep_alive: bool,
    out: &mut BytesMut,
) -> (r: Result<usize, RejectReason>)
    requires
        response_head_text(*res, request_method, body, keep_alive) matches Ok(t) ==> has_room(
            content(*old(out)).len() as int,
            t.len() as int,
        ),
    ensures
        match r {
            Ok(n) => {
                &&& response_head_text(*res, request_method, body, keep_alive) is Ok
                &&& content(*final(out)) == content(*old(out)) + response_head_text(
                    *res,
                    request_method,
                    body,
                    keep_alive,
                )->Ok_0
                &&& n == (response_head_text(
                    *res,
                    request_method,
                    body,
                    keep_alive,
                )->Ok_0).len()
            },
            Err(e) => {
                &&& response_head_text(*res, request_method, body, keep_alive) == Err::<
                    Seq<u8>,
                    RejectReason,
                >(e)
                &&& content(*final(out)) == content(*old(out))
            },
        },
{
    let _len: usize = serialize_response_head_len(res, request_method, body, keep_alive)?;
    let start: usize = out.len();
    write_response_head(res, request_method, body, keep_alive, out);
    Ok(out.len() - start)
}

fn write_response_head(
    res: &CanonicalResponse,
    request_method: Method,
    body: BodySource,
    keep_alive: bool,
    out: &mut BytesMut,
)
    requires
        response_head_text(*res, request_method, body, keep_alive) is Ok,
        has_room(
            content(*old(out)).len() as int,
            (response_head_text(*res, request_method, body, keep_alive)->Ok_0).len() as int,
        ),
    ensures
        content(*final(out)) == content(*old(out)) + response_head_text(
            *res,
            request_method,
            body,
            keep_alive,
        )->Ok_0,
{
    let ghost before = content(*out);
    let ghost whole = response_head_text(*res, request_method, body, keep_alive)->Ok_0;
    let code: u16 = res.status.as_u16();
    put_text(out, "HTTP/1.1 ");
    write_status_code(code, out);
    put_text(out, " ");
    out.extend_from_slice(canonical_reason(code));
    put_text(out, "\r\n");
    write_framing(effective_body(code, &request_method, body), out);
    let ghost head = content(*out);
    if !keep_alive {
        put_text(out, "Connection: close\r\n");
    } else if matches!(res.version, WireVersion::Http10) {
        put_text(out, "Connection: keep-alive\r\n");
    }
    assert(content(*out) =~= head + response_connection_text(keep_alive, res.version));
    write_end_to_end_fields(&res.headers, true, out);
    put_text(out, "\r\n");
    assert(content(*out) =~= before + whole);
}

/// Whatever stands in a section: a head that is written has none of its
/// hop-by-hop fields, and every other field of it that is written is one that
/// may be sent.
pub proof fn law_written_fields_may_be_sent(fields: Seq<Field>, i: int, response: bool)
    requires
        0 <= i < fields.len(),
        fields_text(fields, fields.len() as int, response) is Ok,
    ensures
        !hop_by_hop(fields[i].known()),
        !skipped(fields[i].known()) && !reserved(fields[i].name, response) ==> egress_error(
            fields[i],
        ) is None,
{
    lemma_fields_text_prefix(fields, i + 1, fields.len() as int, response);
}

/// A request with a hop-by-hop field is not written.
pub proof fn law_hop_by_hop_request_is_refused(
    req: CanonicalRequest,
    form: TargetForm,
    body: BodySource,
    keep_alive: ConnectionMode,
    emit: ForwardEmit,
    local: SocketAddr,
    i: int,
)
    requires
        0 <= i < req.headers@.len(),
        hop_by_hop(req.headers@[i].known()),
    ensures
        request_head_text(req, form, body, keep_alive, emit, local) is Err,
{
    if fields_text(req.headers@, req.headers@.len() as int, false) is Ok {
        law_written_fields_may_be_sent(req.headers@, i, false);
    }
}

/// A response with a hop-by-hop field is not written.
pub proof fn law_hop_by_hop_response_is_refused(
    res: CanonicalResponse,
    method: Method,
    body: BodySource,
    keep_alive: bool,
    i: int,
)
    requires
        0 <= i < res.headers@.len(),
        hop_by_hop(res.headers@[i].known()),
    ensures
        response_head_text(res, method, body, keep_alive) is Err,
{
    if fields_text(res.headers@, res.headers@.len() as int, true) is Ok {
        law_written_fields_may_be_sent(res.headers@, i, true);
    }
}

} // verus!
