//! What the chunked encoder writes, the decoder reads.
use crate::error::RejectReason;
use crate::h1::chunked::{
    ahead, drain, lemma_drain_step, micro, size_line_end, DecoderView, Drained, Micro, State,
};
use crate::h1::parser::{crlf, HeadScanBudget};
use crate::h1::serialize::{chunk_text, last_chunk_text, line_end, trailer_lines};
use crate::hlist::sat64;
use crate::num::{hex_number, hex_text, law_hex_round_trip, lemma_hex_text_len, pow16};
use crate::section::Field;
use crate::text::{ascii, hex_value, is_hex, lemma_ascii, lemma_find_seq_is};
use vstd::prelude::*;

verus! {

/// A decoder at the start of a chunk.
pub open spec fn at_chunk(v: DecoderView) -> bool {
    v.state is Size && v.remaining == 0 && v.size_digits == 0
}

/// The body that a sequence of chunks carries.
pub open spec fn body_of(chunks: Seq<Seq<u8>>) -> Seq<u8>
    decreases chunks.len(),
{
    if chunks.len() == 0 {
        Seq::empty()
    } else {
        chunks[0] + body_of(chunks.skip(1))
    }
}

/// What is written for a sequence of chunks: nothing for an empty one.
pub open spec fn chunks_text(chunks: Seq<Seq<u8>>) -> Seq<u8>
    decreases chunks.len(),
{
    if chunks.len() == 0 {
        Seq::empty()
    } else if chunks[0].len() == 0 {
        chunks_text(chunks.skip(1))
    } else {
        chunk_text(chunks[0]) + chunks_text(chunks.skip(1))
    }
}

pub proof fn lemma_line_end()
    ensures
        line_end() == crlf(),
        ascii("0\r\n"@) == seq!['0' as u8, '\r' as u8, '\n' as u8],
{
    reveal_strlit("\r\n");
    reveal_strlit("0\r\n");
    lemma_ascii("\r\n"@);
    lemma_ascii("0\r\n"@);
    assert(line_end() =~= crlf());
    assert(ascii("0\r\n"@) =~= seq!['0' as u8, '\r' as u8, '\n' as u8]);
}

/// One byte of framing.
pub proof fn lemma_one(v: DecoderView, b: u8, rest: Seq<u8>, next: DecoderView)
    requires
        micro(v, seq![b] + rest) == Micro::Go(next, 1),
    ensures
        drain(v, seq![b] + rest) == ahead(1, Seq::empty(), drain(next, rest)),
{
    lemma_drain_step(v, seq![b] + rest);
    assert((seq![b] + rest).skip(1) =~= rest);
}

pub proof fn lemma_ahead_ahead(n: int, m: int, body: Seq<u8>, rest: Result<Drained, RejectReason>)
    ensures
        ahead(n, Seq::empty(), ahead(m, body, rest)) == ahead(n + m, body, rest),
{
    if let Ok(d) = rest {
        assert(Seq::<u8>::empty() + (body + d.body) =~= body + d.body);
    }
}

proof fn lemma_ahead_body(
    n: int,
    a: Seq<u8>,
    m: int,
    b: Seq<u8>,
    rest: Result<Drained, RejectReason>,
)
    ensures
        ahead(n, a, ahead(m, b, rest)) == ahead(n + m, a + b, rest),
{
    if let Ok(d) = rest {
        assert(a + (b + d.body) =~= a + b + d.body);
    }
}

/// The digits of a chunk size are read as the number they write.
pub proof fn lemma_size_digits(v: DecoderView, d: Seq<u8>, rest: Seq<u8>)
    requires
        at_chunk(v),
        d.len() <= 16,
        forall|i: int| 0 <= i < d.len() ==> is_hex(#[trigger] d[i]),
        hex_number(d) <= u64::MAX,
    ensures
        drain(v, d + rest) == ahead(
            d.len() as int,
            Seq::empty(),
            drain(
                DecoderView {
                    remaining: hex_number(d) as u64,
                    size_digits: d.len() as u8,
                    ..v
                },
                rest,
            ),
        ),
    decreases d.len(),
{
    if d.len() == 0 {
        assert(d + rest =~= rest);
        if let Ok(x) = drain(v, rest) {
            assert(Seq::<u8>::empty() + x.body =~= x.body);
        }
    } else {
        let e = d.drop_last();
        let c = d.last();
        assert(is_hex(d[d.len() - 1]));
        assert forall|i: int| 0 <= i < e.len() implies is_hex(#[trigger] e[i]) by {
            assert(is_hex(d[i]));
        }
        lemma_size_digits(v, e, seq![c] + rest);
        assert(d + rest =~= e + (seq![c] + rest));
        let w = DecoderView { remaining: hex_number(e) as u64, size_digits: e.len() as u8, ..v };
        let next = DecoderView {
            remaining: hex_number(d) as u64,
            size_digits: d.len() as u8,
            ..v
        };
        assert((seq![c] + rest)[0] == c);
        lemma_one(w, c, rest, next);
        lemma_ahead_ahead(e.len() as int, 1, Seq::empty(), drain(next, rest));
    }
}

/// The number of a size as it is written.
proof fn lemma_size_text(n: nat)
    requires
        n <= u64::MAX,
    ensures
        1 <= hex_text(n).len() <= 16,
        hex_number(hex_text(n)) == n,
        forall|i: int| 0 <= i < hex_text(n).len() ==> is_hex(#[trigger] hex_text(n)[i]),
{
    law_hex_round_trip(n);
    reveal_with_fuel(pow16, 17);
    lemma_hex_text_len(n, 16);
}

/// A written chunk is read as its data, whatever follows it.
pub proof fn law_chunk_is_read_back(v: DecoderView, data: Seq<u8>, rest: Seq<u8>)
    requires
        at_chunk(v),
        0 < data.len() <= u64::MAX,
    ensures
        drain(v, chunk_text(data) + rest) == ahead(
            chunk_text(data).len() as int,
            data,
            drain(
                DecoderView { delivered: sat64(v.delivered + data.len()), ext_bytes: 0, ..v },
                rest,
            ),
        ),
{
    lemma_line_end();
    lemma_size_text(data.len());
    let none = Seq::<u8>::empty();
    let d = hex_text(data.len());
    let cr = '\r' as u8;
    let lf = '\n' as u8;
    let n = data.len() as int;
    let t4 = seq![cr, lf] + rest;
    let t3 = data + t4;
    let t2 = seq![lf] + t3;
    let t1 = seq![cr] + t2;
    assert(chunk_text(data) + rest =~= d + t1);
    lemma_size_digits(v, d, t1);
    let v1 = DecoderView { remaining: n as u64, size_digits: d.len() as u8, ..v };
    let v2 = DecoderView { state: State::SizeCrlf, ..v1 };
    lemma_one(v1, cr, t2, v2);
    let v3 = DecoderView { state: State::Data, ext_bytes: 0, size_digits: 0, ..v2 };
    lemma_one(v2, lf, t3, v3);
    let v4 = DecoderView {
        remaining: 0,
        delivered: sat64(v.delivered + n),
        state: State::DataCrlf,
        ..v3
    };
    assert(micro(v3, t3) == Micro::Give(v4, n));
    lemma_drain_step(v3, t3);
    assert(t3.take(n) =~= data);
    assert(t3.skip(n) =~= t4);
    let v5 = DecoderView { state: State::Size, ..v4 };
    assert(t4[0] == cr && t4[1] == lf);
    assert(micro(v4, t4) == Micro::Go(v5, 2));
    lemma_drain_step(v4, t4);
    assert(t4.skip(2) =~= rest);
    let end = drain(v5, rest);
    lemma_ahead_body(n, data, 2, none, end);
    assert(data + none =~= data);
    lemma_ahead_ahead(1, n + 2, data, end);
    lemma_ahead_ahead(1, n + 3, data, end);
    lemma_ahead_ahead(d.len() as int, n + 4, data, end);
    assert(chunk_text(data).len() == d.len() + n + 4);
    assert(v5 == (DecoderView { delivered: sat64(v.delivered + data.len()), ext_bytes: 0, ..v }));
}

/// The written end of a body without trailers is read as its end: the
/// message is complete there, whatever follows.
pub proof fn law_last_chunk_is_read_back(v: DecoderView, rest: Seq<u8>)
    requires
        at_chunk(v),
        v.scan + 2 <= HeadScanBudget::MAX_BYTES,
    ensures
        last_chunk_text(Seq::empty()) is Ok,
        drain(v, last_chunk_text(Seq::empty())->Ok_0 + rest) is Ok,
        ({
            let d = drain(v, last_chunk_text(Seq::empty())->Ok_0 + rest)->Ok_0;
            &&& d.done
            &&& d.body == Seq::<u8>::empty()
            &&& d.taken == (last_chunk_text(Seq::empty())->Ok_0).len()
            &&& d.view.delivered == v.delivered
            &&& d.view.trailers == Some(Seq::<Field>::empty())
        }),
{
    lemma_line_end();
    let none = Seq::<u8>::empty();
    let cr = '\r' as u8;
    let lf = '\n' as u8;
    let zero = '0' as u8;
    let text = last_chunk_text(Seq::empty())->Ok_0;
    let t3 = seq![cr, lf] + rest;
    let t2 = seq![lf] + t3;
    let t1 = seq![cr] + t2;
    let t0 = seq![zero] + t1;
    assert(trailer_lines(Seq::<Field>::empty(), 0) == Ok::<Seq<u8>, RejectReason>(none));
    assert(text + rest =~= t0);
    assert(text.len() == 5);
    let v1 = DecoderView { remaining: 0, size_digits: 1, ..v };
    assert(is_hex(zero) && hex_value(zero) == 0);
    lemma_one(v, zero, t1, v1);
    let v2 = DecoderView { state: State::SizeCrlf, ..v1 };
    lemma_one(v1, cr, t2, v2);
    let v3 = size_line_end(v2);
    lemma_one(v2, lf, t3, v3);
    let w = crate::h1::chunked::search_window(t3, v.limits);
    assert(w[0] == cr && w[1] == lf);
    assert(w.subrange(0, 2) =~= crlf());
    lemma_find_seq_is(w, crlf(), 0, 0);
    lemma_drain_step(v3, t3);
    let end = drain(v3, t3);
    assert(end is Ok);
    lemma_ahead_ahead(1, 1, none, end);
    lemma_ahead_ahead(1, 2, none, end);
    if let Ok(d) = end {
        assert(none + d.body =~= none);
    }
}

/// The bytes of a body of any chunks, written and finished, are read back as
/// the data of those chunks in order, and the message is complete at their
/// end.
pub proof fn law_body_is_read_back(v: DecoderView, chunks: Seq<Seq<u8>>, rest: Seq<u8>)
    requires
        at_chunk(v),
        forall|i: int| 0 <= i < chunks.len() ==> (#[trigger] chunks[i]).len() <= u64::MAX,
        v.scan + 2 <= HeadScanBudget::MAX_BYTES,
    ensures
        ({
            let end = last_chunk_text(Seq::empty())->Ok_0;
            let d = drain(v, chunks_text(chunks) + end + rest);
            &&& d is Ok
            &&& d->Ok_0.done
            &&& d->Ok_0.body == body_of(chunks)
            &&& d->Ok_0.taken == chunks_text(chunks).len() + end.len()
            &&& d->Ok_0.view.trailers == Some(Seq::<Field>::empty())
        }),
    decreases chunks.len(),
{
    let end = last_chunk_text(Seq::empty())->Ok_0;
    if chunks.len() == 0 {
        law_last_chunk_is_read_back(v, rest);
        assert(chunks_text(chunks) + end + rest =~= end + rest);
    } else {
        let tail = chunks.skip(1);
        assert forall|i: int| 0 <= i < tail.len() implies (#[trigger] tail[i]).len()
            <= u64::MAX by {
            assert(chunks[i + 1].len() <= u64::MAX);
        }
        if chunks[0].len() == 0 {
            law_body_is_read_back(v, tail, rest);
            assert(chunks[0] + body_of(tail) =~= body_of(tail));
        } else {
            let next = DecoderView {
                delivered: sat64(v.delivered + chunks[0].len()),
                ext_bytes: 0,
                ..v
            };
            let more = chunks_text(tail) + end + rest;
            law_body_is_read_back(next, tail, rest);
            assert(chunks[0].len() <= u64::MAX);
            law_chunk_is_read_back(v, chunks[0], more);
            assert(chunks_text(chunks) + end + rest =~= chunk_text(chunks[0]) + more);
        }
    }
}

} // verus!
