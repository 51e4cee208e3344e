//! How chunks may be written: any size, any extension, any data.
use crate::error::RejectReason;
use crate::h1::chunk_laws::{at_chunk, lemma_ahead_ahead, lemma_one, lemma_size_digits};
use crate::h1::chunked::{
    ahead, drain, lemma_drain_step, micro, search_window, size_line_end, DecoderView, Drained, ExtMode, Micro,
    State,
};
use crate::hlist::sat64;
use crate::h1::parser::{crlf, HeadScanBudget};
use crate::num::hex_number;
use crate::section::Field;
use crate::text::{find_seq, is_hex, lemma_find_seq, lemma_find_seq_is};
use vstd::prelude::*;

verus! {

/// The value of a digit of base 16, written in either case.
pub open spec fn digit16(b: u8) -> Option<nat> {
    if 48 <= b <= 57 {
        Some((b - 48) as nat)
    } else if 65 <= b <= 70 {
        Some((b - 55) as nat)
    } else if 97 <= b <= 102 {
        Some((b - 87) as nat)
    } else {
        None
    }
}

/// Whether every byte is a digit of base 16.
pub open spec fn all_digits16(d: Seq<u8>) -> bool {
    forall|i: int| 0 <= i < d.len() ==> digit16(#[trigger] d[i]) is Some
}

/// The number that digits of base 16 write.
pub open spec fn number16(d: Seq<u8>) -> nat
    decreases d.len(),
{
    if d.len() == 0 {
        0
    } else {
        number16(d.drop_last()) * 16 + digit16(d.last())->Some_0
    }
}

pub proof fn lemma_number16(d: Seq<u8>)
    requires
        all_digits16(d),
    ensures
        hex_number(d) == number16(d),
        forall|i: int| 0 <= i < d.len() ==> is_hex(#[trigger] d[i]),
    decreases d.len(),
{
    assert forall|i: int| 0 <= i < d.len() implies is_hex(#[trigger] d[i]) by {
        assert(digit16(d[i]) is Some);
    }
    if d.len() > 0 {
        let e = d.drop_last();
        assert forall|i: int| 0 <= i < e.len() implies digit16(#[trigger] e[i]) is Some by {
            assert(digit16(d[i]) is Some);
        }
        lemma_number16(e);
        assert(digit16(d[d.len() - 1]) is Some);
    }
}

/// A chunk extension that has no quoted string: `;`, then at least one token
/// byte, `=`, SP or HTAB.
pub open spec fn plain_ext(x: Seq<u8>) -> bool {
    &&& x.len() >= 2
    &&& x[0] == 59
    &&& forall|i: int| 1 <= i < x.len() ==> plain_ext_byte(#[trigger] x[i])
}

/// A token byte, `=`, SP or HTAB.
pub open spec fn plain_ext_byte(b: u8) -> bool {
    48 <= b <= 57 || 65 <= b <= 90 || 97 <= b <= 122 || b == 33 || 35 <= b <= 39 || b == 42 || b
        == 43 || b == 45 || b == 46 || 94 <= b <= 96 || b == 124 || b == 126 || b == 61 || b == 32
        || b == 9
}

/// The bytes of a plain extension are passed over, one after the other.
proof fn lemma_ext(v: DecoderView, x: Seq<u8>, rest: Seq<u8>)
    requires
        v.state is Ext,
        v.ext_mode is TopLevel || v.ext_mode is AfterSemicolon,
        x.len() > 0,
        forall|i: int| 0 <= i < x.len() ==> plain_ext_byte(#[trigger] x[i]),
        v.ext_bytes + x.len() <= v.limits.max_chunk_ext_bytes,
    ensures
        drain(v, x + rest) == ahead(
            x.len() as int,
            Seq::empty(),
            drain(
                DecoderView {
                    ext_bytes: (v.ext_bytes + x.len()) as u32,
                    ext_mode: ExtMode::TopLevel,
                    ..v
                },
                rest,
            ),
        ),
    decreases x.len(),
{
    let b = x[0];
    let more = x.skip(1);
    let next = DecoderView {
        ext_bytes: (v.ext_bytes + 1) as u32,
        ext_mode: ExtMode::TopLevel,
        ..v
    };
    assert(plain_ext_byte(b));
    assert(x + rest =~= seq![b] + (more + rest));
    lemma_one(v, b, more + rest, next);
    if more.len() == 0 {
        assert(more + rest =~= rest);
    } else {
        assert forall|i: int| 0 <= i < more.len() implies plain_ext_byte(#[trigger] more[i]) by {
            assert(plain_ext_byte(x[i + 1]));
        }
        lemma_ext(next, more, rest);
        lemma_ahead_ahead(
            1,
            more.len() as int,
            Seq::empty(),
            drain(
                DecoderView {
                    ext_bytes: (v.ext_bytes + x.len()) as u32,
                    ext_mode: ExtMode::TopLevel,
                    ..v
                },
                rest,
            ),
        );
    }
}

/// A size line up to its CR LF, with an extension or without.
proof fn lemma_size_line(v: DecoderView, d: Seq<u8>, x: Seq<u8>, rest: Seq<u8>)
    requires
        at_chunk(v),
        1 <= d.len() <= 16,
        all_digits16(d),
        number16(d) <= u64::MAX,
        x.len() == 0 || plain_ext(x) && x.len() + 1 <= v.limits.max_chunk_ext_bytes,
    ensures
        ({
            let w = DecoderView {
                state: State::SizeCrlf,
                remaining: number16(d) as u64,
                size_digits: d.len() as u8,
                ext_bytes: if x.len() == 0 {
                    v.ext_bytes
                } else {
                    (x.len() + 1) as u32
                },
                ext_mode: if x.len() == 0 {
                    v.ext_mode
                } else {
                    ExtMode::TopLevel
                },
                ..v
            };
            drain(v, d + x + seq![13u8, 10u8] + rest) == ahead(
                (d.len() + x.len() + 2) as int,
                Seq::empty(),
                drain(size_line_end(w), rest),
            )
        }),
{
    let none = Seq::<u8>::empty();
    let tail = seq![13u8, 10u8] + rest;
    let t2 = seq![10u8] + rest;
    lemma_number16(d);
    lemma_size_digits(v, d, x + tail);
    assert(d + x + seq![13u8, 10u8] + rest =~= d + (x + tail));
    assert(tail =~= seq![13u8] + t2);
    let v1 = DecoderView { remaining: number16(d) as u64, size_digits: d.len() as u8, ..v };
    if x.len() == 0 {
        assert(x + tail =~= tail);
        let v2 = DecoderView { state: State::SizeCrlf, ..v1 };
        lemma_one(v1, 13u8, t2, v2);
        lemma_one(v2, 10u8, rest, size_line_end(v2));
        lemma_ahead_ahead(1, 1, none, drain(size_line_end(v2), rest));
        lemma_ahead_ahead(d.len() as int, 2, none, drain(size_line_end(v2), rest));
    } else {
        let y = x.skip(1);
        assert forall|i: int| 0 <= i < y.len() implies plain_ext_byte(#[trigger] y[i]) by {
            assert(plain_ext_byte(x[i + 1]));
        }
        let v2 = DecoderView {
            state: State::Ext,
            ext_bytes: 1,
            ext_mode: ExtMode::AfterSemicolon,
            ..v1
        };
        assert(x + tail =~= seq![59u8] + (y + tail));
        lemma_one(v1, 59u8, y + tail, v2);
        lemma_ext(v2, y, tail);
        let v3 = DecoderView { ext_bytes: x.len() as u32, ext_mode: ExtMode::TopLevel, ..v2 };
        let v4 = DecoderView { state: State::SizeCrlf, ext_bytes: (x.len() + 1) as u32, ..v3 };
        lemma_one(v3, 13u8, t2, v4);
        lemma_one(v4, 10u8, rest, size_line_end(v4));
        let end = drain(size_line_end(v4), rest);
        lemma_ahead_ahead(1, 1, none, end);
        lemma_ahead_ahead(y.len() as int, 2, none, end);
        lemma_ahead_ahead(1, (y.len() + 2) as int, none, end);
        lemma_ahead_ahead(d.len() as int, (y.len() + 3) as int, none, end);
    }
}

/// A chunk is read as its data however its size is written: in at most sixteen
/// digits of base 16, in either case and with any zeros before them, with an
/// extension behind it or without.
pub proof fn law_any_size_is_read(
    v: DecoderView,
    d: Seq<u8>,
    x: Seq<u8>,
    data: Seq<u8>,
    rest: Seq<u8>,
)
    requires
        at_chunk(v),
        1 <= d.len() <= 16,
        all_digits16(d),
        number16(d) == data.len(),
        0 < data.len() <= u64::MAX,
        x.len() == 0 || plain_ext(x) && x.len() + 1 <= v.limits.max_chunk_ext_bytes,
    ensures
        ({
            let text = d + x + seq![13u8, 10u8] + data + seq![13u8, 10u8];
            let next = drain(v, text + rest);
            exists|after: DecoderView| #[trigger]
                at_chunk(after) && after.delivered == sat64(v.delivered + data.len())
                    && after.limits == v.limits && after.trailers == v.trailers && after.scan
                    == v.scan && next == ahead(text.len() as int, data, drain(after, rest))
        }),
{
    let none = Seq::<u8>::empty();
    let n = data.len() as int;
    let text = d + x + seq![13u8, 10u8] + data + seq![13u8, 10u8];
    let t4 = seq![13u8, 10u8] + rest;
    let t3 = data + t4;
    assert(text + rest =~= d + x + seq![13u8, 10u8] + t3);
    lemma_size_line(v, d, x, t3);
    let w = DecoderView {
        state: State::SizeCrlf,
        remaining: n as u64,
        size_digits: d.len() as u8,
        ext_bytes: if x.len() == 0 {
            v.ext_bytes
        } else {
            (x.len() + 1) as u32
        },
        ext_mode: if x.len() == 0 {
            v.ext_mode
        } else {
            ExtMode::TopLevel
        },
        ..v
    };
    let v3 = size_line_end(w);
    let v4 = DecoderView {
        remaining: 0,
        delivered: sat64(v.delivered + n),
        state: State::DataCrlf,
        ..v3
    };
    assert(micro(v3, t3) == Micro::Give(v4, n));
    lemma_drain_step(v3, t3);
    assert(t3.take(n) =~= data);
    assert(t3.skip(n) =~= t4);
    let after = DecoderView { state: State::Size, ..v4 };
    assert(t4[0] == 13 && t4[1] == 10);
    assert(micro(v4, t4) == Micro::Go(after, 2));
    lemma_drain_step(v4, t4);
    assert(t4.skip(2) =~= rest);
    let end = drain(after, rest);
    if let Ok(e) = end {
        assert(data + (none + e.body) =~= data + e.body);
    }
    assert(ahead(n, data, ahead(2, none, end)) == ahead(n + 2, data, end));
    lemma_ahead_ahead((d.len() + x.len() + 2) as int, n + 2, data, end);
    assert(at_chunk(after));
}

/// A size of zero, however many zeros write it and whatever extension follows,
/// starts the trailers.
pub proof fn law_size_zero_starts_trailers(v: DecoderView, d: Seq<u8>, x: Seq<u8>, rest: Seq<u8>)
    requires
        at_chunk(v),
        1 <= d.len() <= 16,
        forall|i: int| 0 <= i < d.len() ==> #[trigger] d[i] == 48,
        x.len() == 0 || plain_ext(x) && x.len() + 1 <= v.limits.max_chunk_ext_bytes,
    ensures
        ({
            let text = d + x + seq![13u8, 10u8];
            exists|after: DecoderView| #[trigger]
                at_trailers(after) && after.delivered == v.delivered && after.limits == v.limits
                    && after.scan == v.scan && drain(v, text + rest) == ahead(
                    text.len() as int,
                    Seq::empty(),
                    drain(after, rest),
                )
        }),
{
    lemma_zeros(d);
    lemma_size_line(v, d, x, rest);
    assert(d + x + seq![13u8, 10u8] + rest =~= (d + x + seq![13u8, 10u8]) + rest);
    let w = DecoderView {
        state: State::SizeCrlf,
        remaining: 0,
        size_digits: d.len() as u8,
        ext_bytes: if x.len() == 0 {
            v.ext_bytes
        } else {
            (x.len() + 1) as u32
        },
        ext_mode: if x.len() == 0 {
            v.ext_mode
        } else {
            ExtMode::TopLevel
        },
        ..v
    };
    assert(at_trailers(size_line_end(w)));
}

/// An empty line ends the message there; without any trailer before it, there
/// are none.
pub proof fn law_empty_line_ends_the_body(v: DecoderView, rest: Seq<u8>)
    requires
        at_trailers(v),
        v.scan + 2 <= HeadScanBudget::MAX_BYTES,
    ensures
        ({
            let d = drain(v, seq![13u8, 10u8] + rest);
            &&& d is Ok
            &&& d->Ok_0.done
            &&& d->Ok_0.taken == 2
            &&& d->Ok_0.body == Seq::<u8>::empty()
            &&& d->Ok_0.view.delivered == v.delivered
            &&& d->Ok_0.view.trailers == Some(Seq::<Field>::empty())
        }),
{
    let r = seq![13u8, 10u8] + rest;
    let w = search_window(r, v.limits);
    assert(w[0] == 13 && w[1] == 10);
    assert(w.subrange(0, 2) =~= crlf());
    lemma_find_seq_is(w, crlf(), 0, 0);
    lemma_drain_step(v, r);
}

/// A body of one chunk, its size written in any way, is exactly its data.
pub proof fn law_one_chunk_body(v: DecoderView, d: Seq<u8>, data: Seq<u8>, rest: Seq<u8>)
    requires
        at_chunk(v),
        1 <= d.len() <= 16,
        all_digits16(d),
        number16(d) == data.len(),
        0 < data.len() <= u64::MAX,
        v.scan + 2 <= HeadScanBudget::MAX_BYTES,
    ensures
        ({
            let text = d + seq![13u8, 10u8] + data + seq![13u8, 10u8] + seq![
                48u8,
                13u8,
                10u8,
                13u8,
                10u8,
            ];
            let got = drain(v, text + rest);
            &&& got is Ok
            &&& got->Ok_0.done
            &&& got->Ok_0.body == data
            &&& got->Ok_0.taken == text.len()
            &&& got->Ok_0.view.delivered == sat64(v.delivered + data.len())
            &&& got->Ok_0.view.trailers == Some(Seq::<Field>::empty())
        }),
{
    let none = Seq::<u8>::empty();
    let crlfs = seq![13u8, 10u8];
    let zero = seq![48u8];
    let t2 = crlfs + rest;
    let t1 = (zero + none + crlfs) + t2;
    let text = d + crlfs + data + crlfs + seq![48u8, 13u8, 10u8, 13u8, 10u8];
    law_any_size_is_read(v, d, none, data, t1);
    let first = d + none + crlfs + data + crlfs;
    assert(text + rest =~= first + t1);
    let a = choose|after: DecoderView| #[trigger]
        at_chunk(after) && after.delivered == sat64(v.delivered + data.len()) && after.limits
            == v.limits && after.trailers == v.trailers && after.scan == v.scan && drain(
            v,
            first + t1,
        ) == ahead(first.len() as int, data, drain(after, t1));
    law_size_zero_starts_trailers(a, zero, none, t2);
    let b = choose|after: DecoderView| #[trigger]
        at_trailers(after) && after.delivered == a.delivered && after.limits == a.limits
            && after.scan == a.scan && drain(a, (zero + none + crlfs) + t2) == ahead(
            3,
            none,
            drain(after, t2),
        );
    law_empty_line_ends_the_body(b, rest);
    assert(data + (none + none) =~= data);
    assert(text.len() == first.len() + 5);
}

/// A decoder at the start of the trailers, with none read.
pub open spec fn at_trailers(v: DecoderView) -> bool {
    v.state is Trailers && v.section is Some && (v.section->Some_0).fields == Seq::<Field>::empty()
}

proof fn lemma_zeros(d: Seq<u8>)
    requires
        forall|i: int| 0 <= i < d.len() ==> #[trigger] d[i] == 48,
    ensures
        all_digits16(d),
        number16(d) == 0,
    decreases d.len(),
{
    if d.len() > 0 {
        let e = d.drop_last();
        assert forall|i: int| 0 <= i < e.len() implies #[trigger] e[i] == 48 by {
            assert(d[i] == 48);
        }
        lemma_zeros(e);
        assert(d[d.len() - 1] == 48);
    }
}

/// What is no size is refused: a line that starts with anything but a digit,
/// digits with another byte among them, and a size that ends in a bare LF.
pub proof fn law_bad_size_is_refused(v: DecoderView, d: Seq<u8>, b: u8, rest: Seq<u8>)
    requires
        at_chunk(v),
        d.len() <= 16,
        all_digits16(d),
        number16(d) <= u64::MAX,
        digit16(b) is None,
    ensures
        d.len() == 0 && b != 10 ==> drain(v, d + seq![b] + rest) == Err::<Drained, RejectReason>(
            RejectReason::ChunkSizeInvalid,
        ),
        b != 59 && b != 13 && b != 10 ==> drain(v, d + seq![b] + rest) == Err::<
            Drained,
            RejectReason,
        >(RejectReason::ChunkSizeInvalid),
        b == 10 ==> drain(v, d + seq![b] + rest) == Err::<Drained, RejectReason>(
            RejectReason::ChunkTerminatorInvalid,
        ),
{
    lemma_number16(d);
    lemma_size_digits(v, d, seq![b] + rest);
    assert(d + seq![b] + rest =~= d + (seq![b] + rest));
    let v1 = DecoderView { remaining: number16(d) as u64, size_digits: d.len() as u8, ..v };
    assert((seq![b] + rest)[0] == b);
    lemma_drain_step(v1, seq![b] + rest);
}

/// A seventeenth digit is refused, whatever the number.
pub proof fn law_long_size_is_refused(v: DecoderView, d: Seq<u8>, b: u8, rest: Seq<u8>)
    requires
        at_chunk(v),
        d.len() == 16,
        all_digits16(d),
        number16(d) <= u64::MAX,
        digit16(b) is Some,
    ensures
        drain(v, d + seq![b] + rest) == Err::<Drained, RejectReason>(
            RejectReason::ChunkSizeOverflow,
        ),
{
    lemma_number16(d);
    lemma_size_digits(v, d, seq![b] + rest);
    assert(d + seq![b] + rest =~= d + (seq![b] + rest));
    let v1 = DecoderView { remaining: number16(d) as u64, size_digits: d.len() as u8, ..v };
    assert((seq![b] + rest)[0] == b);
    lemma_drain_step(v1, seq![b] + rest);
}

/// Chunk data that is not followed by CR LF is refused.
pub proof fn law_unterminated_data_is_refused(v: DecoderView, a: u8, b: u8, rest: Seq<u8>)
    requires
        v.state is DataCrlf,
        a != 13 || b != 10,
    ensures
        drain(v, seq![a, b] + rest) == Err::<Drained, RejectReason>(
            RejectReason::ChunkTerminatorInvalid,
        ),
{
    let r = seq![a, b] + rest;
    assert(r[0] == a && r[1] == b);
    lemma_drain_step(v, r);
}

/// The CR of a size line is followed by LF, or it is refused.
pub proof fn law_size_line_ends_in_crlf(v: DecoderView, b: u8, rest: Seq<u8>)
    requires
        v.state is SizeCrlf,
        b != 10,
    ensures
        drain(v, seq![b] + rest) == Err::<Drained, RejectReason>(
            RejectReason::ChunkTerminatorInvalid,
        ),
{
    assert((seq![b] + rest)[0] == b);
    lemma_drain_step(v, seq![b] + rest);
}

/// Where in an extension a byte is refused: an empty extension, a byte that is
/// no token byte outside a quoted string, a line end within one; and every
/// byte once there are as many as are allowed.
pub proof fn law_bad_extension_is_refused(v: DecoderView, b: u8, rest: Seq<u8>)
    requires
        v.state is Ext,
    ensures
        v.ext_bytes >= v.limits.max_chunk_ext_bytes ==> drain(v, seq![b] + rest) == Err::<
            Drained,
            RejectReason,
        >(RejectReason::ChunkExtTooLong),
        v.ext_bytes < v.limits.max_chunk_ext_bytes && match v.ext_mode {
            ExtMode::AfterSemicolon => !plain_ext_byte(b) && b != 34,
            ExtMode::TopLevel => !plain_ext_byte(b) && b != 34 && b != 59 && b != 13,
            ExtMode::Quoted => b == 13 || b == 10,
            ExtMode::QuotedEscaped => b == 13 || b == 10,
        } ==> drain(v, seq![b] + rest) == Err::<Drained, RejectReason>(
            RejectReason::ChunkExtInvalid,
        ),
{
    assert((seq![b] + rest)[0] == b);
    lemma_drain_step(v, seq![b] + rest);
}

/// Within a quoted string of an extension every byte but a quote, a backslash
/// and a line end is passed over; a backslash takes the next byte with it.
pub proof fn law_quoted_extension_is_passed(v: DecoderView, b: u8, rest: Seq<u8>)
    requires
        v.state is Ext,
        v.ext_bytes < v.limits.max_chunk_ext_bytes,
        b != 13 && b != 10,
    ensures
        ({
            let to = |mode: ExtMode| DecoderView {
                ext_bytes: (v.ext_bytes + 1) as u32,
                ext_mode: mode,
                ..v
            };
            let next = |mode: ExtMode| ahead(1, Seq::empty(), drain(to(mode), rest));
            let got = drain(v, seq![b] + rest);
            &&& v.ext_mode is Quoted && b != 34 && b != 92 ==> got == next(ExtMode::Quoted)
            &&& v.ext_mode is Quoted && b == 92 ==> got == next(ExtMode::QuotedEscaped)
            &&& v.ext_mode is Quoted && b == 34 ==> got == next(ExtMode::TopLevel)
            &&& v.ext_mode is QuotedEscaped ==> got == next(ExtMode::Quoted)
            &&& (v.ext_mode is TopLevel || v.ext_mode is AfterSemicolon) && b == 34 ==> got == next(
                ExtMode::Quoted,
            )
            &&& v.ext_mode is TopLevel && b == 59 ==> got == next(ExtMode::AfterSemicolon)
        }),
{
    let r = seq![b] + rest;
    assert(r[0] == b);
    lemma_drain_step(v, r);
    assert(r.skip(1) =~= rest);
}

/// The end of a trailer line is searched in as many bytes as a field line may
/// have, and 64 more. What goes on beyond that without one is refused; what may
/// still end waits for more.
pub proof fn law_trailer_line_search(v: DecoderView, r: Seq<u8>)
    requires
        v.state is Trailers,
        v.scan + r.len() <= HeadScanBudget::MAX_BYTES,
        forall|j: int|
            0 <= j && j + 2 <= r.len() ==> #[trigger] r.subrange(j, j + 2) != seq![13u8, 10u8],
    ensures
        HeadScanBudget::MAX_BYTES == 4194304,
        r.len() > v.limits.max_field_line_bytes + 64 ==> drain(v, r) == Err::<
            Drained,
            RejectReason,
        >(RejectReason::FieldLineTooLong),
        r.len() <= v.limits.max_field_line_bytes + 64 ==> {
            &&& drain(v, r) is Ok
            &&& !drain(v, r)->Ok_0.done
            &&& drain(v, r)->Ok_0.taken == 0
            &&& drain(v, r)->Ok_0.body == Seq::<u8>::empty()
        },
{
    let w = search_window(r, v.limits);
    lemma_find_seq(w, crlf(), 0);
    if let Some(at) = find_seq(w, crlf(), 0) {
        assert(w.subrange(at, at + 2) =~= r.subrange(at, at + 2));
        assert(crlf() =~= seq![13u8, 10u8]);
        assert(r.subrange(at, at + 2) != seq![13u8, 10u8]);
    }
    lemma_drain_step(v, r);
}

} // verus!
