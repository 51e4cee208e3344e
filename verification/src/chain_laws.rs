//! The lines of a forwarding field are one list.
use crate::error::RejectReason;
use crate::forwarded::{
    chain_of, charge_lines, law_split_parts_join, left_open, lemma_lines_len_first,
    lemma_lines_len_mono, lemma_top_find, lines_from, lines_len, no_chain, span_step, spans_from,
    top_find, top_split, ChainView,
};
use crate::limits::Limits;
use crate::text::joined;
use vstd::prelude::*;

verus! {

/// With a separator and more behind it, the same separator is found, or the
/// one in between.
proof fn lemma_top_find_more(
    a: Seq<u8>,
    b: Seq<u8>,
    delim: u8,
    i: int,
    quoted: bool,
    escaped: bool,
)
    requires
        0 <= i <= a.len(),
        escaped ==> quoted,
        delim != '"' as u8,
        !left_open(a, i, quoted, escaped),
    ensures
        top_find(a + seq![delim] + b, delim, i, quoted, escaped) == top_find(
            a,
            delim,
            i,
            quoted,
            escaped,
        ),
    decreases a.len() - i,
{
    let s = a + seq![delim] + b;
    if i < a.len() {
        assert(s[i] == a[i]);
        if escaped {
            lemma_top_find_more(a, b, delim, i + 1, quoted, false);
        } else if quoted {
            lemma_top_find_more(a, b, delim, i + 1, a[i] != '"' as u8, a[i] == '\\' as u8);
        } else if a[i] == '"' as u8 || a[i] != delim {
            lemma_top_find_more(a, b, delim, i + 1, a[i] == '"' as u8, false);
        }
    } else {
        assert(s[i] == delim);
    }
}

/// What is open at the end depends on what stands behind a separator alone.
proof fn lemma_left_open_behind(s: Seq<u8>, delim: u8, i: int, quoted: bool, escaped: bool)
    requires
        0 <= i <= s.len(),
        escaped ==> quoted,
        delim != '"' as u8,
        top_find(s, delim, i, quoted, escaped) < s.len(),
    ensures
        left_open(s, i, quoted, escaped) == left_open(
            s,
            top_find(s, delim, i, quoted, escaped) + 1,
            false,
            false,
        ),
    decreases s.len() - i,
{
    if i < s.len() {
        if escaped {
            lemma_left_open_behind(s, delim, i + 1, quoted, false);
        } else if quoted {
            lemma_left_open_behind(s, delim, i + 1, s[i] != '"' as u8, s[i] == '\\' as u8);
        } else if s[i] == '"' as u8 || s[i] != delim {
            lemma_left_open_behind(s, delim, i + 1, s[i] == '"' as u8, false);
        }
    }
}

proof fn lemma_left_open_skip(s: Seq<u8>, k: int, i: int, quoted: bool, escaped: bool)
    requires
        0 <= k <= i <= s.len(),
    ensures
        left_open(s.skip(k), i - k, quoted, escaped) == left_open(s, i, quoted, escaped),
    decreases s.len() - i,
{
    if i < s.len() {
        assert(s.skip(k)[i - k] == s[i]);
        if escaped {
            lemma_left_open_skip(s, k, i + 1, quoted, false);
        } else if quoted {
            lemma_left_open_skip(s, k, i + 1, s[i] != '"' as u8, s[i] == '\\' as u8);
        } else {
            lemma_left_open_skip(s, k, i + 1, s[i] == '"' as u8, false);
        }
    }
}

/// The parts of two texts with a separator between them are those of the one
/// and those of the other, unless a string is left open in the first.
pub proof fn law_split_at_a_separator(a: Seq<u8>, b: Seq<u8>, delim: u8)
    requires
        delim != '"' as u8,
        !left_open(a, 0, false, false),
    ensures
        top_split(a + seq![delim] + b, delim) == top_split(a, delim) + top_split(b, delim),
    decreases a.len(),
{
    let s = a + seq![delim] + b;
    let at = top_find(a, delim, 0, false, false);
    lemma_top_find(a, delim, 0, false, false);
    lemma_top_find_more(a, b, delim, 0, false, false);
    assert(s.take(at) =~= a.take(at));
    if at < a.len() {
        let rest = a.skip(at + 1);
        lemma_left_open_behind(a, delim, 0, false, false);
        lemma_left_open_skip(a, at + 1, at + 1, false, false);
        law_split_at_a_separator(rest, b, delim);
        assert(s.skip(at + 1) =~= rest + seq![delim] + b);
        assert(top_split(s, delim) =~= top_split(a, delim) + top_split(b, delim));
    } else {
        assert(a.take(at) =~= a);
        assert(s.skip(at + 1) =~= b);
        assert(top_split(s, delim) =~= top_split(a, delim) + top_split(b, delim));
    }
}

/// The parts of all lines, one line behind the other.
pub open spec fn all_parts(lines: Seq<Seq<u8>>, delim: u8) -> Seq<Seq<u8>>
    decreases lines.len(),
{
    if lines.len() == 0 {
        Seq::empty()
    } else {
        top_split(lines[0], delim) + all_parts(lines.skip(1), delim)
    }
}

/// Whether no line but the last leaves a quoted string open.
pub open spec fn closed_lines(lines: Seq<Seq<u8>>) -> bool {
    forall|i: int| 0 <= i < lines.len() - 1 ==> !left_open(#[trigger] lines[i], 0, false, false)
}

/// The lines of a field as one comma-joined line; no line where there is none.
pub open spec fn one_line(lines: Seq<Seq<u8>>) -> Seq<Seq<u8>> {
    if lines.len() == 0 {
        Seq::empty()
    } else {
        seq![joined(lines, ',' as u8)]
    }
}

/// The parts of lines joined into one are the parts of the lines.
proof fn lemma_joined_parts(lines: Seq<Seq<u8>>, delim: u8)
    requires
        delim != '"' as u8,
        lines.len() > 0,
        closed_lines(lines),
    ensures
        top_split(joined(lines, delim), delim) == all_parts(lines, delim),
        joined(lines, delim).len() == lines_len(lines, lines.len() as int) + lines.len() - 1,
    decreases lines.len(),
{
    let more = lines.skip(1);
    lemma_lines_len_first(lines, lines.len() as int);
    if lines.len() == 1 {
        assert(all_parts(more, delim) =~= Seq::<Seq<u8>>::empty());
        assert(all_parts(lines, delim) =~= top_split(lines[0], delim));
        assert(lines_len(more, 0) == 0);
    } else {
        assert forall|i: int| 0 <= i < more.len() - 1 implies !left_open(
            #[trigger] more[i],
            0,
            false,
            false,
        ) by {
            assert(!left_open(lines[i + 1], 0, false, false));
        }
        lemma_joined_parts(more, delim);
        assert(!left_open(lines[0], 0, false, false));
        law_split_at_a_separator(lines[0], joined(more, delim), delim);
    }
}

/// One element at a time, whatever was charged before.
proof fn lemma_spans_bytes(
    c: ChainView,
    bytes: int,
    spans: Seq<Seq<u8>>,
    i: int,
    xff: bool,
    limits: Limits,
)
    requires
        0 <= i,
    ensures
        spans_from(ChainView { bytes, ..c }, spans, i, xff, limits) == (match spans_from(
            c,
            spans,
            i,
            xff,
            limits,
        ) {
            Err(e) => Err::<ChainView, RejectReason>(e),
            Ok(f) => Ok(ChainView { bytes, ..f }),
        }),
    decreases spans.len() - i,
{
    if i < spans.len() {
        reveal(span_step);
        if let Ok(d) = span_step(c, spans[i], xff, limits) {
            lemma_spans_bytes(d, bytes, spans, i + 1, xff, limits);
        }
    }
}

proof fn lemma_spans_append(
    c: ChainView,
    p: Seq<Seq<u8>>,
    q: Seq<Seq<u8>>,
    i: int,
    xff: bool,
    limits: Limits,
)
    requires
        0 <= i <= p.len(),
    ensures
        spans_from(c, p + q, i, xff, limits) == (match spans_from(c, p, i, xff, limits) {
            Err(e) => Err::<ChainView, RejectReason>(e),
            Ok(f) => spans_from(f, p + q, p.len() as int, xff, limits),
        }),
    decreases p.len() - i,
{
    if i < p.len() {
        assert((p + q)[i] == p[i]);
        if let Ok(d) = span_step(c, p[i], xff, limits) {
            lemma_spans_append(d, p, q, i + 1, xff, limits);
        }
    }
}

proof fn lemma_spans_shift(
    c: ChainView,
    p: Seq<Seq<u8>>,
    q: Seq<Seq<u8>>,
    i: int,
    xff: bool,
    limits: Limits,
)
    requires
        0 <= i <= q.len(),
    ensures
        spans_from(c, p + q, p.len() + i, xff, limits) == spans_from(c, q, i, xff, limits),
    decreases q.len() - i,
{
    if i < q.len() {
        assert((p + q)[p.len() + i] == q[i]);
        if let Ok(d) = span_step(c, q[i], xff, limits) {
            lemma_spans_shift(d, p, q, i + 1, xff, limits);
        }
    }
}

/// Within the byte limit, lines are read as the parts of all of them.
proof fn lemma_lines_as_parts(
    c: ChainView,
    lines: Seq<Seq<u8>>,
    i: int,
    xff: bool,
    limits: Limits,
)
    requires
        0 <= i <= lines.len(),
        0 <= c.bytes,
        c.bytes + lines_len(lines.skip(i), lines.len() - i) <= limits.max_forwarded_bytes,
    ensures
        lines_from(c, lines, i, xff, limits) == (match spans_from(
            c,
            all_parts(lines.skip(i), ',' as u8),
            0,
            xff,
            limits,
        ) {
            Err(e) => Err::<ChainView, RejectReason>(e),
            Ok(f) => Ok(
                ChainView { bytes: c.bytes + lines_len(lines.skip(i), lines.len() - i), ..f },
            ),
        }),
    decreases lines.len() - i,
{
    let rest = lines.skip(i);
    if i < lines.len() {
        let n = lines[i].len() as int;
        let p = top_split(lines[i], ',' as u8);
        let q = all_parts(lines.skip(i + 1), ',' as u8);
        let d = ChainView { bytes: c.bytes + n, ..c };
        assert(rest[0] == lines[i]);
        assert(rest.skip(1) =~= lines.skip(i + 1));
        lemma_lines_len_first(rest, rest.len() as int);
        lemma_lines_len_mono(rest.skip(1), 0, rest.len() - 1);
        assert(lines_len(rest.skip(1), 0) == 0);
        lemma_spans_bytes(c, c.bytes + n, p, 0, xff, limits);
        lemma_spans_append(c, p, q, 0, xff, limits);
        if let Ok(f) = spans_from(c, p, 0, xff, limits) {
            let g = ChainView { bytes: c.bytes + n, ..f };
            lemma_spans_shift(f, p, q, 0, xff, limits);
            lemma_lines_as_parts(g, lines, i + 1, xff, limits);
            lemma_spans_bytes(f, c.bytes + n, q, 0, xff, limits);
        }
    } else {
        assert(lines_len(rest, 0) == 0);
        assert(all_parts(rest, ',' as u8) =~= Seq::<Seq<u8>>::empty());
    }
}

/// Whether two outcomes are the same chain but for the bytes that were counted,
/// or the same refusal.
pub open spec fn same_but_bytes(
    x: Result<ChainView, RejectReason>,
    y: Result<ChainView, RejectReason>,
) -> bool {
    match (x, y) {
        (Err(e), Err(f)) => e == f,
        (Ok(a), Ok(b)) => a == (ChainView { bytes: a.bytes, ..b }),
        _ => false,
    }
}

/// The lines of a field are read as one line.
proof fn lemma_lines_one(
    c: ChainView,
    d: ChainView,
    lines: Seq<Seq<u8>>,
    xff: bool,
    limits: Limits,
)
    requires
        closed_lines(lines),
        c == (ChainView { bytes: c.bytes, ..d }),
        0 <= c.bytes <= d.bytes,
        d.bytes + lines_len(one_line(lines), one_line(lines).len() as int)
            <= limits.max_forwarded_bytes,
    ensures
        ({
            let x = lines_from(c, lines, 0, xff, limits);
            let y = lines_from(d, one_line(lines), 0, xff, limits);
            &&& same_but_bytes(x, y)
            &&& x is Ok ==> x->Ok_0.bytes == c.bytes + lines_len(lines, lines.len() as int)
            &&& y is Ok ==> y->Ok_0.bytes == d.bytes + lines_len(
                one_line(lines),
                one_line(lines).len() as int,
            )
            &&& lines_len(lines, lines.len() as int) <= lines_len(
                one_line(lines),
                one_line(lines).len() as int,
            )
        }),
{
    let one = one_line(lines);
    if lines.len() > 0 {
        let all = joined(lines, ',' as u8);
        lemma_joined_parts(lines, ',' as u8);
        assert(one.skip(0) =~= one);
        assert(lines.skip(0) =~= lines);
        assert(lines_len(one, 0) == 0);
        assert(lines_len(one, 1) == all.len());
        assert(all_parts(one.skip(1), ',' as u8) =~= Seq::<Seq<u8>>::empty());
        assert(all_parts(one, ',' as u8) =~= top_split(all, ',' as u8));
        lemma_lines_as_parts(c, lines, 0, xff, limits);
        lemma_lines_as_parts(d, one, 0, xff, limits);
        lemma_spans_bytes(d, c.bytes, all_parts(lines, ',' as u8), 0, xff, limits);
    }
}

proof fn lemma_all_parts_last(lines: Seq<Seq<u8>>, delim: u8)
    requires
        lines.len() > 0,
    ensures
        all_parts(lines, delim).len() > 0,
        all_parts(lines, delim).last() == top_split(lines.last(), delim).last(),
    decreases lines.len(),
{
    law_split_parts_join(lines[0], delim);
    if lines.len() > 1 {
        lemma_all_parts_last(lines.skip(1), delim);
    } else {
        assert(all_parts(lines.skip(1), delim) =~= Seq::<Seq<u8>>::empty());
        assert(all_parts(lines, delim) =~= top_split(lines[0], delim));
    }
}

/// Within the byte limit, lines are charged what they are long.
proof fn lemma_charge_within(c: ChainView, lines: Seq<Seq<u8>>, i: int, limits: Limits)
    requires
        0 <= i <= lines.len(),
        c.bytes + lines_len(lines, lines.len() as int) - lines_len(lines, i)
            <= limits.max_forwarded_bytes,
    ensures
        charge_lines(c, lines, i, limits) is Ok,
        charge_lines(c, lines, i, limits)->Ok_0 == (ChainView {
            bytes: c.bytes + lines_len(lines, lines.len() as int) - lines_len(lines, i),
            ..c
        }),
    decreases lines.len() - i,
{
    if i < lines.len() {
        lemma_lines_len_mono(lines, i + 1, lines.len() as int);
        let d = ChainView { bytes: c.bytes + lines[i].len(), ..c };
        lemma_charge_within(d, lines, i + 1, limits);
    }
}

/// The lines of each of the three fields are one list: joined by commas into
/// one line they give the same elements, the same hosts and the same refusals.
/// Only the commas are counted on top.
///
/// The joined lines are within the byte limit, and no line but the last of a
/// field leaves a quoted string open.
pub proof fn law_lines_are_one_list(
    forwarded: Seq<Seq<u8>>,
    xff: Seq<Seq<u8>>,
    xfp: Seq<Seq<u8>>,
    limits: Limits,
)
    requires
        closed_lines(forwarded),
        closed_lines(xff),
        closed_lines(xfp),
        lines_len(one_line(forwarded), one_line(forwarded).len() as int) + lines_len(
            one_line(xff),
            one_line(xff).len() as int,
        ) + lines_len(one_line(xfp), one_line(xfp).len() as int) <= limits.max_forwarded_bytes,
    ensures
        same_but_bytes(
            chain_of(forwarded, xff, xfp, limits),
            chain_of(one_line(forwarded), one_line(xff), one_line(xfp), limits),
        ),
{
    let f1 = one_line(forwarded);
    let x1 = one_line(xff);
    let p1 = one_line(xfp);
    lemma_lines_len_mono(f1, 0, f1.len() as int);
    lemma_lines_len_mono(x1, 0, x1.len() as int);
    lemma_lines_len_mono(p1, 0, p1.len() as int);
    lemma_lines_len_mono(forwarded, 0, forwarded.len() as int);
    lemma_lines_len_mono(xff, 0, xff.len() as int);
    lemma_lines_one(no_chain(), no_chain(), forwarded, false, limits);
    if let Ok(a) = lines_from(no_chain(), forwarded, 0, false, limits) {
        let a1 = lines_from(no_chain(), f1, 0, false, limits)->Ok_0;
        lemma_lines_one(a, a1, xff, true, limits);
        if let Ok(b) = lines_from(a, xff, 0, true, limits) {
            let b1 = lines_from(a1, x1, 0, true, limits)->Ok_0;
            if xfp.len() > 0 {
                lemma_joined_parts(xfp, ',' as u8);
                lemma_all_parts_last(xfp, ',' as u8);
                assert(lines_len(p1, 0) == 0);
                assert(lines_len(p1, 1) == joined(xfp, ',' as u8).len());
            }
            assert(lines_len(xfp, 0) == 0 && lines_len(p1, 0) == 0);
            lemma_charge_within(b, xfp, 0, limits);
            lemma_charge_within(b1, p1, 0, limits);
        }
    }
}

} // verus!
