//! The trailers that the chunked encoder writes, the decoder reads.
use crate::error::RejectReason;
use crate::field::{
    all_value_bytes, canonical_name, lemma_ows_from, lemma_ows_to, ows_from, trim,
    UnderscorePolicy,
};
use crate::h1::chunk_laws::{
    at_chunk, body_of, chunks_text, law_chunk_is_read_back, lemma_ahead_ahead, lemma_line_end,
    lemma_one,
};
use crate::h1::chunked::{
    drain, lemma_drain_step, line_bare_error, micro, search_cap, search_window, size_line_end,
    trailer_denied_spec, trailer_line, DecoderView, Micro, State,
};
use crate::h1::parser::{crlf, line_name, line_rest, raw_name_byte_error, HeadScanBudget};
use crate::h1::request_round_trip::lemma_valid_field;
use crate::h1::round_trip::{
    budget_at, clean, fields_fit, lemma_budget_step, lemma_trim_space, lemma_wire_clean,
    lemma_wire_name, read_fields, section_at, wire_line,
};
use crate::h1::serialize::{
    chunk_text, egress_error, field_text, last_chunk_text, trailer_lines,
};
use crate::hlist::sat64;
use crate::known::classify_spec;
use crate::limits::Limits;
use crate::scalar::WireVersion;
use crate::section::{section_cost, Field};
use crate::text::{
    ascii, find_seq, hex_value, is_hex, is_ows, lemma_ascii, lemma_find_is, lemma_find_seq_is,
    lower_all, occurs_at,
};
use vstd::prelude::*;

verus! {

/// The lines of the fields from `k` on, and the blank line behind them.
pub open spec fn tail_text(fields: Seq<Field>, k: int) -> Seq<u8>
    decreases fields.len() - k,
{
    if k >= fields.len() {
        crlf()
    } else {
        wire_line(fields[k]) + crlf() + tail_text(fields, k + 1)
    }
}

proof fn lemma_field_text(f: Field)
    ensures
        field_text(f) == wire_line(f) + crlf(),
{
    lemma_line_end();
    reveal_strlit(": ");
    lemma_ascii(": "@);
    assert(ascii(": "@) =~= seq![':' as u8, ' ' as u8]);
    assert(field_text(f) =~= wire_line(f) + crlf());
}

/// Trailers that are written are acceptable, and their text is their lines.
proof fn lemma_trailer_text(fields: Seq<Field>, k: int)
    requires
        0 <= k <= fields.len(),
        trailer_lines(fields, fields.len() as int) is Ok,
    ensures
        trailer_lines(fields, k) is Ok,
        trailer_lines(fields, k)->Ok_0 + tail_text(fields, k) == trailer_lines(
            fields,
            fields.len() as int,
        )->Ok_0 + crlf(),
        k < fields.len() ==> egress_error(fields[k]) is None
            && !trailer_denied_spec(fields[k].known()),
    decreases fields.len() - k,
{
    if k < fields.len() {
        lemma_trailer_text(fields, k + 1);
        lemma_field_text(fields[k]);
        assert(trailer_lines(fields, k + 1)->Ok_0 + tail_text(fields, k + 1) =~= trailer_lines(
            fields,
            k,
        )->Ok_0 + tail_text(fields, k));
    }
}

proof fn lemma_no_bare(line: Seq<u8>, i: int)
    requires
        clean(line),
        0 <= i <= line.len(),
    ensures
        line_bare_error(line, i) is None,
    decreases line.len() - i,
{
    if i < line.len() {
        lemma_no_bare(line, i + 1);
    }
}

/// A decoder that has read the first `k` of these trailers.
spec fn trailers_at(v: DecoderView, read: Seq<Field>, k: int, scan: int) -> DecoderView {
    DecoderView {
        state: State::Trailers,
        section: Some(section_at(read, k, v.limits)),
        budget: budget_at(read, k, v.limits),
        scan: scan as u64,
        ..v
    }
}

/// A written trailer line is read as that trailer.
proof fn lemma_trailer_line(v: DecoderView, fields: Seq<Field>, k: int, scan: int)
    requires
        0 <= k < fields.len(),
        egress_error(fields[k]) is None,
        !trailer_denied_spec(fields[k].known()),
        fields_fit(read_fields(fields), v.limits),
    ensures
        trailer_line(trailers_at(v, read_fields(fields), k, scan), wire_line(fields[k])) == Ok::<
            DecoderView,
            RejectReason,
        >(trailers_at(v, read_fields(fields), k + 1, scan)),
{
    let f = fields[k];
    let read = read_fields(fields);
    let line = wire_line(f);
    let n = f.name.len() as int;
    let colon = ':' as u8;
    let policy = UnderscorePolicy::Reject;
    lemma_valid_field(f);
    lemma_wire_clean(f);
    lemma_no_bare(line, 0);
    assert forall|j: int| 0 <= j < n implies line[j] == f.name[j] && line[j] != colon && !is_ows(
        line[j],
    ) by {
        assert(raw_name_byte_error(f.name[j], policy) is None);
    }
    assert(line[n] == colon);
    lemma_find_is(line, colon, 0, n);
    assert(line_name(line) =~= f.name);
    assert(line_rest(line) =~= seq![' ' as u8] + f.value);
    lemma_trim_space(f.value);
    lemma_wire_name(f.name);
    assert(read[k].name.len() + read[k].value.len() <= v.limits.max_field_line_bytes);
    lemma_budget_step(read, k, v.limits);
    lemma_ows_from(f.value, 0);
    lemma_ows_to(f.value, ows_from(f.value, 0), f.value.len() as int);
    assert(all_value_bytes(trim(f.value)));
    let st = section_at(read, k, v.limits);
    let next = section_at(read, k + 1, v.limits);
    assert(!st.collides(read[k].name, lower_all(f.name)));
    assert(st.fields.push(read[k]) =~= next.fields);
    assert(st.wires.push(read[k].name) =~= next.wires);
    assert(st.added_raw(f.name, v.underscores, trim(f.value), WireVersion::Http11) == next);
    assert(classify_spec(canonical_name(f.name)) == f.known());
}

/// The first CR LF behind a clean line is the one that ends it.
proof fn lemma_line_found(line: Seq<u8>, more: Seq<u8>)
    requires
        clean(line) || line.len() == 0,
    ensures
        find_seq(line + crlf() + more, crlf(), 0) == Some(line.len() as int),
{
    let s = line + crlf() + more;
    let n = line.len() as int;
    assert(s.subrange(n, n + 2) =~= crlf());
    assert forall|j: int| 0 <= j < n implies !occurs_at(s, crlf(), j) by {
        assert(s[j] == line[j]);
        if occurs_at(s, crlf(), j) {
            assert(s.subrange(j, j + 2)[0] == crlf()[0]);
        }
    }
    lemma_find_seq_is(s, crlf(), 0, n);
}

/// The part of the input that is searched starts with the whole line.
proof fn lemma_window(v: DecoderView, line: Seq<u8>, more: Seq<u8>)
    requires
        line.len() + 2 <= search_cap(v.limits),
        clean(line) || line.len() == 0,
    ensures
        ({
            let w = search_window(line + crlf() + more, v.limits);
            &&& find_seq(w, crlf(), 0) == Some(line.len() as int)
            &&& w.take(line.len() as int) == line
        }),
{
    let s = line + crlf() + more;
    let w = search_window(s, v.limits);
    let rest = w.skip(line.len() as int + 2);
    assert(w =~= line + crlf() + rest);
    lemma_line_found(line, rest);
    assert(w.take(line.len() as int) =~= line);
}

/// From the middle of written trailers on, the decoder reads the rest of them.
proof fn lemma_trailers_from(v: DecoderView, fields: Seq<Field>, k: int, scan: int, rest: Seq<u8>)
    requires
        0 <= k <= fields.len(),
        trailer_lines(fields, fields.len() as int) is Ok,
        fields_fit(read_fields(fields), v.limits),
        forall|i: int|
            0 <= i < fields.len() ==> (#[trigger] wire_line(fields[i])).len() + 2 <= search_cap(
                v.limits,
            ),
        0 <= scan,
        scan + tail_text(fields, k).len() <= HeadScanBudget::MAX_BYTES,
    ensures
        ({
            let d = drain(
                trailers_at(v, read_fields(fields), k, scan),
                tail_text(fields, k) + rest,
            );
            &&& d is Ok
            &&& d->Ok_0.done
            &&& d->Ok_0.body == Seq::<u8>::empty()
            &&& d->Ok_0.taken == tail_text(fields, k).len()
            &&& d->Ok_0.view.delivered == v.delivered
            &&& d->Ok_0.view.trailers == Some(read_fields(fields))
        }),
    decreases fields.len() - k,
{
    let read = read_fields(fields);
    let at = trailers_at(v, read, k, scan);
    let none = Seq::<u8>::empty();
    if k == fields.len() {
        let r = crlf() + rest;
        assert(none + crlf() + rest =~= r);
        lemma_window(v, none, rest);
        lemma_drain_step(at, r);
        assert(read.take(k) =~= read);
    } else {
        let line = wire_line(fields[k]);
        let more = tail_text(fields, k + 1) + rest;
        let r = tail_text(fields, k) + rest;
        lemma_trailer_text(fields, k);
        lemma_valid_field(fields[k]);
        lemma_wire_clean(fields[k]);
        lemma_trailer_line(v, fields, k, scan + line.len() + 2);
        lemma_window(v, line, more);
        assert(r =~= line + crlf() + more);
        let next = trailers_at(v, read, k + 1, scan + line.len() + 2);
        assert(micro(at, r) == Micro::Go(next, line.len() as int + 2));
        lemma_drain_step(at, r);
        assert(r.skip(line.len() as int + 2) =~= more);
        lemma_trailers_from(v, fields, k + 1, scan + line.len() + 2, rest);
        assert(none + none =~= none);
    }
}

/// The written end of a body is read as its end, whatever follows, and its
/// trailers as they were written, without the whitespace around their values.
///
/// The trailers are within the decoder's limits, and so is the search for
/// the ends of their lines.
pub proof fn law_trailers_are_read_back(v: DecoderView, fields: Seq<Field>, rest: Seq<u8>)
    requires
        at_chunk(v),
        last_chunk_text(fields) is Ok,
        fields_fit(read_fields(fields), v.limits),
        forall|i: int|
            0 <= i < fields.len() ==> (#[trigger] wire_line(fields[i])).len() + 2 <= search_cap(
                v.limits,
            ),
        v.scan + (last_chunk_text(fields)->Ok_0).len() - 3 <= HeadScanBudget::MAX_BYTES,
    ensures
        ({
            let text = last_chunk_text(fields)->Ok_0;
            let d = drain(v, text + rest);
            &&& d is Ok
            &&& d->Ok_0.done
            &&& d->Ok_0.body == Seq::<u8>::empty()
            &&& d->Ok_0.taken == text.len()
            &&& d->Ok_0.view.delivered == v.delivered
            &&& d->Ok_0.view.trailers == Some(read_fields(fields))
        }),
{
    lemma_line_end();
    lemma_trailer_text(fields, 0);
    let none = Seq::<u8>::empty();
    let text = last_chunk_text(fields)->Ok_0;
    let tail = tail_text(fields, 0);
    assert(trailer_lines(fields, 0)->Ok_0 + tail =~= tail);
    let t3 = tail + rest;
    let t2 = seq!['\n' as u8] + t3;
    let t1 = seq!['\r' as u8] + t2;
    assert(text =~= ascii("0\r\n"@) + (trailer_lines(fields, fields.len() as int)->Ok_0 + crlf()));
    assert(text + rest =~= seq!['0' as u8] + t1);
    let v1 = DecoderView { remaining: 0, size_digits: 1, ..v };
    assert(is_hex('0' as u8) && hex_value('0' as u8) == 0);
    lemma_one(v, '0' as u8, t1, v1);
    let v2 = DecoderView { state: State::SizeCrlf, ..v1 };
    lemma_one(v1, '\r' as u8, t2, v2);
    let v3 = size_line_end(v2);
    lemma_one(v2, '\n' as u8, t3, v3);
    let read = read_fields(fields);
    let start = trailers_at(v2, read, 0, v.scan as int);
    assert(read.take(0) =~= Seq::empty());
    assert(start.section->Some_0.wires =~= Seq::empty());
    assert(v3 == start);
    lemma_trailers_from(v2, fields, 0, v.scan as int, rest);
    let end = drain(v3, t3);
    lemma_ahead_ahead(1, 1, none, end);
    lemma_ahead_ahead(1, 2, none, end);
    assert(none + none =~= none);
}

/// A body of any chunks, written and finished with trailers, is read back: the
/// data of the chunks in order, then the trailers, and the message is complete
/// at their end, whatever follows.
pub proof fn law_body_and_trailers_are_read_back(
    v: DecoderView,
    chunks: Seq<Seq<u8>>,
    fields: Seq<Field>,
    rest: Seq<u8>,
)
    requires
        at_chunk(v),
        forall|i: int| 0 <= i < chunks.len() ==> (#[trigger] chunks[i]).len() <= u64::MAX,
        last_chunk_text(fields) is Ok,
        fields_fit(read_fields(fields), v.limits),
        forall|i: int|
            0 <= i < fields.len() ==> (#[trigger] wire_line(fields[i])).len() + 2 <= search_cap(
                v.limits,
            ),
        v.scan + (last_chunk_text(fields)->Ok_0).len() - 3 <= HeadScanBudget::MAX_BYTES,
    ensures
        ({
            let end = last_chunk_text(fields)->Ok_0;
            let d = drain(v, chunks_text(chunks) + end + rest);
            &&& d is Ok
            &&& d->Ok_0.done
            &&& d->Ok_0.body == body_of(chunks)
            &&& d->Ok_0.taken == chunks_text(chunks).len() + end.len()
            &&& d->Ok_0.view.delivered == sat64(v.delivered + body_of(chunks).len())
            &&& d->Ok_0.view.trailers == Some(read_fields(fields))
        }),
    decreases chunks.len(),
{
    let end = last_chunk_text(fields)->Ok_0;
    if chunks.len() == 0 {
        law_trailers_are_read_back(v, fields, rest);
        assert(chunks_text(chunks) + end + rest =~= end + rest);
    } else {
        let tail = chunks.skip(1);
        assert forall|i: int| 0 <= i < tail.len() implies (#[trigger] tail[i]).len()
            <= u64::MAX by {
            assert(chunks[i + 1].len() <= u64::MAX);
        }
        if chunks[0].len() == 0 {
            law_body_and_trailers_are_read_back(v, tail, fields, rest);
            assert(chunks[0] + body_of(tail) =~= body_of(tail));
        } else {
            let next = DecoderView {
                delivered: sat64(v.delivered + chunks[0].len()),
                ext_bytes: 0,
                ..v
            };
            let more = chunks_text(tail) + end + rest;
            law_body_and_trailers_are_read_back(next, tail, fields, rest);
            assert(chunks[0].len() <= u64::MAX);
            law_chunk_is_read_back(v, chunks[0], more);
            assert(chunks_text(chunks) + end + rest =~= chunk_text(chunks[0]) + more);
        }
    }
}

/// Trailers without whitespace around their values read back as they are.
proof fn lemma_trimmed_fields(fields: Seq<Field>)
    requires
        trailer_lines(fields, fields.len() as int) is Ok,
        forall|i: int| 0 <= i < fields.len() ==> trim((#[trigger] fields[i]).value) == fields[i].value,
    ensures
        read_fields(fields) == fields,
{
    assert forall|i: int| 0 <= i < fields.len() implies #[trigger] read_fields(fields)[i]
        == fields[i] by {
        lemma_trailer_text(fields, i);
        lemma_valid_field(fields[i]);
        assert(trim(fields[i].value) == fields[i].value);
    }
    assert(read_fields(fields) =~= fields);
}

/// The text of trailers is no longer than what they cost.
proof fn lemma_trailer_cost(fields: Seq<Field>, n: int)
    requires
        0 <= n <= fields.len(),
        trailer_lines(fields, n) is Ok,
    ensures
        (trailer_lines(fields, n)->Ok_0).len() <= section_cost(fields.take(n)),
    decreases n,
{
    if n > 0 {
        lemma_trailer_cost(fields, n - 1);
        lemma_field_text(fields[n - 1]);
        assert(fields.take(n).drop_last() =~= fields.take(n - 1));
    }
}

/// What an encoder writes, a decoder of any policy reads: a body of any chunks,
/// finished with trailers whose values have no whitespace around them and that
/// are within the decoder's limits, is decoded from its first byte to its last
/// into the data of the chunks in order and those trailers, whatever follows.
pub proof fn law_encoded_body_is_decoded(
    limits: Limits,
    underscores: UnderscorePolicy,
    chunks: Seq<Seq<u8>>,
    fields: Seq<Field>,
    rest: Seq<u8>,
)
    requires
        body_of(chunks).len() <= u64::MAX,
        last_chunk_text(fields) is Ok,
        fields_fit(fields, limits),
        forall|i: int| 0 <= i < fields.len() ==> trim((#[trigger] fields[i]).value) == fields[i].value,
    ensures
        ({
            let v = DecoderView::fresh(limits, underscores);
            let text = chunks_text(chunks) + last_chunk_text(fields)->Ok_0;
            let d = drain(v, text + rest);
            &&& d is Ok
            &&& d->Ok_0.done
            &&& d->Ok_0.body == body_of(chunks)
            &&& d->Ok_0.taken == text.len()
            &&& d->Ok_0.view.delivered == body_of(chunks).len()
            &&& d->Ok_0.view.trailers == Some(fields)
        }),
{
    let v = DecoderView::fresh(limits, underscores);
    let n = fields.len() as int;
    lemma_line_end();
    lemma_trimmed_fields(fields);
    lemma_trailer_cost(fields, n);
    assert(fields.take(n) =~= fields);
    assert forall|i: int| 0 <= i < fields.len() implies (#[trigger] wire_line(fields[i])).len() + 2
        <= search_cap(limits) by {
        assert(fields[i].name.len() + fields[i].value.len() <= limits.max_field_line_bytes);
    }
    assert forall|i: int| 0 <= i < chunks.len() implies (#[trigger] chunks[i]).len()
        <= u64::MAX by {
        lemma_chunk_in_body(chunks, i);
    }
    law_body_and_trailers_are_read_back(v, chunks, fields, rest);
}

proof fn lemma_chunk_in_body(chunks: Seq<Seq<u8>>, i: int)
    requires
        0 <= i < chunks.len(),
    ensures
        chunks[i].len() <= body_of(chunks).len(),
    decreases chunks.len(),
{
    if i > 0 {
        lemma_chunk_in_body(chunks.skip(1), i - 1);
    }
}

} // verus!
