//! How a chunked body arrives makes no difference to what is decoded.
//!
//! The one thing that does depend on it is how many bytes are searched for the
//! ends of trailer lines: a line that arrives in pieces is searched once for
//! each. The laws here are on runs whose searches stay within
//! [`HeadScanBudget::MAX_BYTES`].
use crate::error::RejectReason;
use crate::h1::chunked::{
    ahead, drain, law_delivered_counts_the_body, lemma_drain_step, lemma_micro_bounds,
    lemma_run_step, micro, run, search_window, trailer_line, ChunkedEvent, DecoderView, Drained,
    Micro,
};
use crate::h1::parser::{crlf, HeadScanBudget};
use crate::hlist::sat64;
use crate::text::{find_seq, lemma_find_seq, lemma_find_seq_is, occurs_at};
use vstd::prelude::*;

verus! {

// ---- searching ----

/// The bytes that one step searches for the end of a trailer line.
pub open spec fn charge(v: DecoderView, r: Seq<u8>) -> int {
    if v.state is Trailers {
        let window = search_window(r, v.limits);
        match find_seq(window, crlf(), 0) {
            None => window.len() as int,
            Some(at) => at + 2,
        }
    } else {
        0
    }
}

/// The bytes that decoding `r` call after call searches.
#[verifier::opaque]
pub open spec fn searched(v: DecoderView, r: Seq<u8>) -> int
    decreases r.len(),
{
    charge(v, r) + match micro(v, r) {
        Micro::Go(next, n) => if 0 < n <= r.len() {
            searched(next, r.skip(n))
        } else {
            0
        },
        Micro::Give(next, n) => if 0 < n <= r.len() {
            searched(next, r.skip(n))
        } else {
            0
        },
        _ => 0,
    }
}

/// The bytes that one call searches from position `at` on.
#[verifier::opaque]
pub open spec fn call_searched(v: DecoderView, buf: Seq<u8>, at: int) -> int
    decreases buf.len() - at,
{
    if at < 0 || at > buf.len() {
        0
    } else {
        charge(v, buf.skip(at)) + match micro(v, buf.skip(at)) {
            Micro::Go(next, n) => if 0 < n <= buf.len() - at {
                call_searched(next, buf, at + n)
            } else {
                0
            },
            _ => 0,
        }
    }
}

proof fn lemma_charge(v: DecoderView, r: Seq<u8>)
    ensures
        charge(v, r) >= 0,
{
    if v.state is Trailers {
        lemma_find_seq(search_window(r, v.limits), crlf(), 0);
    }
}

proof fn lemma_searched_step(v: DecoderView, r: Seq<u8>)
    ensures
        searched(v, r) == charge(v, r) + match micro(v, r) {
            Micro::Go(next, n) => searched(next, r.skip(n)),
            Micro::Give(next, n) => searched(next, r.skip(n)),
            _ => 0,
        },
{
    reveal(searched);
    lemma_micro_bounds(v, r);
}

proof fn lemma_searched(v: DecoderView, r: Seq<u8>)
    ensures
        searched(v, r) >= 0,
    decreases r.len(),
{
    lemma_searched_step(v, r);
    lemma_charge(v, r);
    lemma_micro_bounds(v, r);
    match micro(v, r) {
        Micro::Go(next, n) => lemma_searched(next, r.skip(n)),
        Micro::Give(next, n) => lemma_searched(next, r.skip(n)),
        _ => {},
    }
}

proof fn lemma_call_searched_step(v: DecoderView, buf: Seq<u8>, at: int)
    requires
        0 <= at <= buf.len(),
    ensures
        call_searched(v, buf, at) == charge(v, buf.skip(at)) + match micro(v, buf.skip(at)) {
            Micro::Go(next, n) => call_searched(next, buf, at + n),
            _ => 0,
        },
{
    reveal(call_searched);
    lemma_micro_bounds(v, buf.skip(at));
}

/// A step that is not refused counts what it searched.
proof fn lemma_scan_counts(v: DecoderView, r: Seq<u8>)
    ensures
        match micro(v, r) {
            Micro::Fail(_) => true,
            Micro::Go(next, _) => next.scan == v.scan + charge(v, r),
            Micro::Give(next, _) => next.scan == v.scan + charge(v, r),
            Micro::Wait(next) => next.scan == v.scan + charge(v, r),
            Micro::End(next, _) => next.scan == v.scan + charge(v, r),
        },
{
    lemma_charge(v, r);
    if v.state is Trailers {
        let window = search_window(r, v.limits);
        lemma_find_seq(window, crlf(), 0);
        if let Some(at) = find_seq(window, crlf(), 0) {
            let searched = DecoderView { scan: sat64(v.scan + at + 2), ..v };
            if let Ok(next) = trailer_line(searched, window.take(at)) {
                assert(next.scan == searched.scan);
            }
        }
    }
}

// ---- the same outcome ----

/// Whether two states differ at most in the bytes searched so far.
pub open spec fn same_but_scan(a: DecoderView, b: DecoderView) -> bool {
    a == (DecoderView { scan: a.scan, ..b })
}

/// Whether two runs come to the same: the same refusal, or the same body, the
/// same bytes taken, both complete or both not, and the same state but for the
/// bytes searched.
pub open spec fn same_outcome(
    x: Result<Drained, RejectReason>,
    y: Result<Drained, RejectReason>,
) -> bool {
    match (x, y) {
        (Err(e), Err(f)) => e == f,
        (Ok(d), Ok(e)) => d.body == e.body && d.taken == e.taken && d.done == e.done
            && same_but_scan(d.view, e.view),
        _ => false,
    }
}

/// How a step goes if fewer bytes were searched before.
spec fn micro_same(less: Micro, more: Micro) -> bool {
    match more {
        Micro::Fail(e) => less == Micro::Fail(e),
        Micro::Go(v, n) => less is Go && less->Go_1 == n && same_but_scan(less->Go_0, v)
            && less->Go_0.scan <= v.scan,
        Micro::Give(v, n) => less is Give && less->Give_1 == n && same_but_scan(less->Give_0, v)
            && less->Give_0.scan <= v.scan,
        Micro::Wait(v) => less is Wait && same_but_scan(less->Wait_0, v),
        Micro::End(v, n) => less is End && less->End_1 == n && same_but_scan(less->End_0, v),
    }
}

proof fn lemma_micro_less_scan(more: DecoderView, less: DecoderView, r: Seq<u8>)
    requires
        same_but_scan(less, more),
        less.scan <= more.scan,
        more.scan + charge(more, r) <= HeadScanBudget::MAX_BYTES,
    ensures
        micro_same(micro(less, r), micro(more, r)),
        charge(less, r) == charge(more, r),
{
    if more.state is Trailers {
        let window = search_window(r, more.limits);
        lemma_find_seq(window, crlf(), 0);
        if let Some(at) = find_seq(window, crlf(), 0) {
            let line = window.take(at);
            let sm = DecoderView { scan: sat64(more.scan + at + 2), ..more };
            let sl = DecoderView { scan: sat64(less.scan + at + 2), ..less };
            assert(match trailer_line(sm, line) {
                Err(e) => trailer_line(sl, line) == Err::<DecoderView, RejectReason>(e),
                Ok(x) => trailer_line(sl, line) is Ok && same_but_scan(
                    trailer_line(sl, line)->Ok_0,
                    x,
                ) && (trailer_line(sl, line)->Ok_0).scan == sl.scan && x.scan == sm.scan,
            });
        }
    }
}

/// What was searched before makes no difference within the budget.
proof fn lemma_less_scan(more: DecoderView, less: DecoderView, r: Seq<u8>)
    requires
        same_but_scan(less, more),
        less.scan <= more.scan,
        more.scan + searched(more, r) <= HeadScanBudget::MAX_BYTES,
    ensures
        same_outcome(drain(less, r), drain(more, r)),
        searched(less, r) == searched(more, r),
    decreases r.len(),
{
    lemma_drain_step(more, r);
    lemma_drain_step(less, r);
    lemma_searched_step(more, r);
    lemma_searched_step(less, r);
    lemma_micro_bounds(more, r);
    lemma_scan_counts(more, r);
    match micro(more, r) {
        Micro::Go(next, n) => {
            lemma_searched(next, r.skip(n));
            lemma_micro_less_scan(more, less, r);
            lemma_less_scan(next, micro(less, r)->Go_0, r.skip(n));
        },
        Micro::Give(next, n) => {
            lemma_searched(next, r.skip(n));
            lemma_micro_less_scan(more, less, r);
            lemma_less_scan(next, micro(less, r)->Give_0, r.skip(n));
        },
        _ => {
            lemma_micro_less_scan(more, less, r);
        },
    }
}

proof fn lemma_ahead_same(
    n: int,
    body: Seq<u8>,
    x: Result<Drained, RejectReason>,
    y: Result<Drained, RejectReason>,
)
    requires
        same_outcome(x, y),
    ensures
        same_outcome(ahead(n, body, x), ahead(n, body, y)),
{
}

proof fn lemma_ahead_twice(
    n: int,
    x: Seq<u8>,
    m: int,
    y: Seq<u8>,
    rest: Result<Drained, RejectReason>,
)
    ensures
        ahead(n, x, ahead(m, y, rest)) == ahead(n + m, x + y, rest),
{
    if let Ok(d) = rest {
        assert(x + (y + d.body) =~= x + y + d.body);
    }
}

proof fn lemma_ahead_none(rest: Result<Drained, RejectReason>)
    ensures
        ahead(0, Seq::empty(), rest) == rest,
{
    if let Ok(d) = rest {
        assert(Seq::<u8>::empty() + d.body =~= d.body);
    }
}

// ---- steps with more input behind them ----

/// With more bytes behind it, a step over framing, a refusal within the search
/// budget and the end of a message are the same.
proof fn lemma_micro_more(v: DecoderView, a: Seq<u8>, b: Seq<u8>)
    requires
        micro(v, a) is Go || micro(v, a) is End || micro(v, a) is Fail && v.scan + charge(v, a)
            <= HeadScanBudget::MAX_BYTES,
    ensures
        micro(v, a + b) == micro(v, a),
        charge(v, a + b) == charge(v, a),
{
    if v.state is Trailers {
        let w = search_window(a, v.limits);
        let x = search_window(a + b, v.limits);
        lemma_find_seq(w, crlf(), 0);
        match find_seq(w, crlf(), 0) {
            Some(at) => {
                assert(w =~= x.take(w.len() as int));
                assert forall|j: int| 0 <= j <= at implies occurs_at(x, crlf(), j) == occurs_at(
                    w,
                    crlf(),
                    j,
                ) by {
                    assert(x.subrange(j, j + 2) =~= w.subrange(j, j + 2));
                }
                assert(occurs_at(x, crlf(), at));
                assert forall|j: int| 0 <= j < at implies !occurs_at(x, crlf(), j) by {
                    assert(!occurs_at(w, crlf(), j));
                }
                lemma_find_seq_is(x, crlf(), 0, at);
                assert(x.take(at) =~= w.take(at));
            },
            None => {
                assert(x =~= w);
            },
        }
    } else {
        if a.len() > 0 {
            assert((a + b)[0] == a[0]);
        }
        if a.len() > 1 {
            assert((a + b)[1] == a[1]);
        }
    }
}

/// Chunk data that ends with the input goes on with the next.
proof fn lemma_split_data(v: DecoderView, a: Seq<u8>, b: Seq<u8>)
    requires
        v.state is Data,
        v.remaining > a.len() > 0,
    ensures
        drain(v, a + b) == ahead(a.len() as int, a, drain(micro(v, a)->Give_0, b)),
        drain(v, a) == Ok::<Drained, RejectReason>(
            Drained {
                view: micro(v, a)->Give_0,
                body: a,
                taken: a.len() as int,
                done: false,
            },
        ),
        searched(v, a) == 0,
        searched(v, a + b) == searched(micro(v, a)->Give_0, b),
{
    let none = Seq::<u8>::empty();
    let n = a.len() as int;
    let next = micro(v, a)->Give_0;
    lemma_drain_step(v, a);
    lemma_drain_step(v, a + b);
    lemma_searched_step(v, a);
    lemma_searched_step(v, a + b);
    assert(a.skip(n) =~= none);
    assert(a.take(n) =~= a);
    assert(micro(next, none) == Micro::Wait(next));
    lemma_drain_step(next, none);
    lemma_searched_step(next, none);
    assert(a + none =~= a);
    lemma_drain_step(next, b);
    lemma_searched_step(next, b);
    if b.len() == 0 {
        assert(a + b =~= a);
        assert(b =~= none);
    } else {
        let m = micro(v, a + b)->Give_1;
        let last = micro(v, a + b)->Give_0;
        assert(micro(next, b) == Micro::Give(last, m - n));
        assert((a + b).skip(m) =~= b.skip(m - n));
        assert((a + b).take(m) =~= a + b.take(m - n));
        if let Ok(d) = drain(last, b.skip(m - n)) {
            assert(a + (b.take(m - n) + d.body) =~= (a + b.take(m - n)) + d.body);
        }
    }
}

// ---- two pieces ----

/// Decoding `a`, then what is left of it followed by `b`.
pub open spec fn split_run(v: DecoderView, a: Seq<u8>, b: Seq<u8>) -> Result<
    Drained,
    RejectReason,
> {
    match drain(v, a) {
        Err(e) => Err(e),
        Ok(d) => if d.done {
            Ok(d)
        } else {
            ahead(d.taken, d.body, drain(d.view, a.skip(d.taken) + b))
        },
    }
}

/// The bytes searched in decoding `a`, then what is left of it followed by
/// `b`.
pub open spec fn split_searched(v: DecoderView, a: Seq<u8>, b: Seq<u8>) -> int {
    searched(v, a) + match drain(v, a) {
        Err(_) => 0,
        Ok(d) => if d.done {
            0
        } else {
            searched(d.view, a.skip(d.taken) + b)
        },
    }
}

/// What the law below says, and what it takes to prove it.
spec fn splits_alike(v: DecoderView, a: Seq<u8>, b: Seq<u8>) -> bool {
    &&& match drain(v, a) {
        Err(e) => drain(v, a + b) == Err::<Drained, RejectReason>(e),
        Ok(d) => {
            &&& 0 <= d.taken <= a.len()
            &&& d.done ==> drain(v, a + b) == drain(v, a)
            &&& d.view.scan == v.scan + searched(v, a)
        },
    }
    &&& same_outcome(drain(v, a + b), split_run(v, a, b))
    &&& searched(v, a + b) <= split_searched(v, a, b)
}

proof fn lemma_splits_alike(v: DecoderView, a: Seq<u8>, b: Seq<u8>)
    requires
        v.scan + split_searched(v, a, b) <= HeadScanBudget::MAX_BYTES,
    ensures
        splits_alike(v, a, b),
    decreases a.len(), 1nat,
{
    let none = Seq::<u8>::empty();
    lemma_micro_bounds(v, a);
    lemma_drain_step(v, a);
    lemma_searched_step(v, a);
    lemma_scan_counts(v, a);
    lemma_charge(v, a);
    match micro(v, a) {
        Micro::Wait(next) => {
            assert(a.skip(0) =~= a);
            lemma_less_scan(next, v, a + b);
            lemma_ahead_none(drain(next, a + b));
        },
        Micro::Go(next, n) => {
            lemma_micro_more(v, a, b);
            lemma_drain_step(v, a + b);
            lemma_searched_step(v, a + b);
            lemma_split_step(v, next, n, none, a, b);
        },
        Micro::Give(next, n) => {
            if v.remaining > a.len() {
                lemma_split_data(v, a, b);
                assert(a.skip(a.len() as int) + b =~= b);
            } else {
                lemma_drain_step(v, a + b);
                lemma_searched_step(v, a + b);
                assert(micro(v, a + b) == micro(v, a));
                assert((a + b).take(n) =~= a.take(n));
                lemma_split_step(v, next, n, a.take(n), a, b);
            }
        },
        Micro::End(_, _) => {
            lemma_micro_more(v, a, b);
            lemma_drain_step(v, a + b);
            lemma_searched_step(v, a + b);
        },
        Micro::Fail(_) => {
            lemma_micro_more(v, a, b);
            lemma_drain_step(v, a + b);
            lemma_searched_step(v, a + b);
        },
    }
}

/// A step that both take the same way.
proof fn lemma_split_step(
    v: DecoderView,
    next: DecoderView,
    n: int,
    body: Seq<u8>,
    a: Seq<u8>,
    b: Seq<u8>,
)
    requires
        0 < n <= a.len(),
        v.scan + split_searched(v, a, b) <= HeadScanBudget::MAX_BYTES,
        next.scan == v.scan + charge(v, a),
        charge(v, a + b) == charge(v, a),
        drain(v, a) == ahead(n, body, drain(next, a.skip(n))),
        drain(v, a + b) == ahead(n, body, drain(next, (a + b).skip(n))),
        searched(v, a) == charge(v, a) + searched(next, a.skip(n)),
        searched(v, a + b) == charge(v, a) + searched(next, (a + b).skip(n)),
    ensures
        splits_alike(v, a, b),
    decreases a.len(), 0nat,
{
    let rest = a.skip(n);
    assert((a + b).skip(n) =~= rest + b);
    if let Ok(d) = drain(next, rest) {
        law_delivered_counts_the_body(next, rest);
        assert(rest.skip(d.taken) =~= a.skip(n + d.taken));
        if !d.done {
            lemma_ahead_twice(n, body, d.taken, d.body, drain(d.view, rest.skip(d.taken) + b));
        }
    }
    assert(split_searched(v, a, b) == charge(v, a) + split_searched(next, rest, b));
    lemma_splits_alike(next, rest, b);
    lemma_ahead_same(n, body, drain(next, rest + b), split_run(next, rest, b));
    assert(split_run(v, a, b) == ahead(n, body, split_run(next, rest, b)));
}

/// The outcome does not depend on how the input is split. What is refused in
/// `a` is refused the same way whatever follows, and a message complete in `a`
/// is complete there. Otherwise decoding `a`, then what is left of it followed
/// by `b`, and decoding `a` and `b` at once are refused for the same reason,
/// or report the same body, take the same bytes, are both complete or both
/// not, and leave the same state but for the bytes searched.
pub proof fn law_split_invariance(v: DecoderView, a: Seq<u8>, b: Seq<u8>)
    requires
        v.scan + split_searched(v, a, b) <= HeadScanBudget::MAX_BYTES,
    ensures
        drain(v, a) is Err ==> drain(v, a + b) == drain(v, a),
        drain(v, a) matches Ok(d) && d.done ==> drain(v, a + b) == drain(v, a),
        same_outcome(drain(v, a + b), split_run(v, a, b)),
{
    lemma_splits_alike(v, a, b);
}

// ---- any calls ----

/// What comes of calls on ever other fronts of what is left of `r`: the first
/// one sees its first `fronts[0]` bytes, and each later one what the calls
/// before it left. When there is none left, the rest is decoded call after
/// call.
pub open spec fn called(v: DecoderView, r: Seq<u8>, fronts: Seq<nat>) -> Result<
    Drained,
    RejectReason,
>
    decreases fronts.len(),
{
    if fronts.len() == 0 {
        drain(v, r)
    } else {
        let seen = front(r, fronts[0]);
        match run(v, seen, 0) {
            Err(e) => Err(e),
            Ok((next, ChunkedEvent::Data { offset, len }, to)) => ahead(
                to,
                seen.subrange(offset as int, offset + len),
                called(next, r.skip(to), fronts.skip(1)),
            ),
            Ok((next, ChunkedEvent::NeedMore, to)) => ahead(
                to,
                Seq::empty(),
                called(next, r.skip(to), fronts.skip(1)),
            ),
            Ok((next, ChunkedEvent::Done { .. }, to)) => Ok(
                Drained { view: next, body: Seq::empty(), taken: to, done: true },
            ),
        }
    }
}

/// The first `n` bytes of `r`, or all of it.
pub open spec fn front(r: Seq<u8>, n: nat) -> Seq<u8> {
    if n < r.len() {
        r.take(n as int)
    } else {
        r
    }
}

/// The bytes that these calls search.
pub open spec fn called_searched(v: DecoderView, r: Seq<u8>, fronts: Seq<nat>) -> int
    decreases fronts.len(),
{
    if fronts.len() == 0 {
        searched(v, r)
    } else {
        let seen = front(r, fronts[0]);
        call_searched(v, seen, 0) + match run(v, seen, 0) {
            Err(_) => 0,
            Ok((_, ChunkedEvent::Done { .. }, _)) => 0,
            Ok((next, _, to)) => called_searched(next, r.skip(to), fronts.skip(1)),
        }
    }
}

/// What follows one call that saw `a`, when `b` stands behind it.
spec fn after_call(
    a: Seq<u8>,
    b: Seq<u8>,
    outcome: Result<(DecoderView, ChunkedEvent, int), RejectReason>,
) -> Result<Drained, RejectReason> {
    match outcome {
        Err(e) => Err(e),
        Ok((next, ChunkedEvent::Data { offset, len }, to)) => ahead(
            to,
            a.subrange(offset as int, offset + len),
            drain(next, (a + b).skip(to)),
        ),
        Ok((next, ChunkedEvent::NeedMore, to)) => ahead(
            to,
            Seq::empty(),
            drain(next, (a + b).skip(to)),
        ),
        Ok((next, ChunkedEvent::Done { .. }, to)) => Ok(
            Drained { view: next, body: Seq::empty(), taken: to, done: true },
        ),
    }
}

/// The bytes searched after one call.
spec fn after_searched(
    a: Seq<u8>,
    b: Seq<u8>,
    outcome: Result<(DecoderView, ChunkedEvent, int), RejectReason>,
) -> int {
    match outcome {
        Err(_) => 0,
        Ok((_, ChunkedEvent::Done { .. }, _)) => 0,
        Ok((next, _, to)) => searched(next, (a + b).skip(to)),
    }
}

/// One call on a front of the input, and decoding on from where it got to,
/// come to the same as decoding all of it.
proof fn lemma_call(v: DecoderView, a: Seq<u8>, b: Seq<u8>, at: int)
    requires
        0 <= at <= a.len() <= usize::MAX,
        v.scan + call_searched(v, a, at) + after_searched(a, b, run(v, a, at))
            <= HeadScanBudget::MAX_BYTES,
    ensures
        same_outcome(
            ahead(at, Seq::empty(), drain(v, (a + b).skip(at))),
            after_call(a, b, run(v, a, at)),
        ),
        searched(v, (a + b).skip(at)) <= call_searched(v, a, at) + after_searched(
            a,
            b,
            run(v, a, at),
        ),
        run(v, a, at) matches Ok((next, _, to)) ==> at <= to <= a.len() && next.scan == v.scan
            + call_searched(v, a, at),
    decreases a.len() - at,
{
    let none = Seq::<u8>::empty();
    let r = a.skip(at);
    let whole = (a + b).skip(at);
    assert(whole =~= r + b);
    lemma_run_step(v, a, at);
    lemma_call_searched_step(v, a, at);
    lemma_micro_bounds(v, r);
    lemma_scan_counts(v, r);
    lemma_charge(v, r);
    lemma_drain_step(v, whole);
    lemma_searched_step(v, whole);
    match micro(v, r) {
        Micro::Go(next, n) => {
            lemma_micro_more(v, r, b);
            lemma_call(next, a, b, at + n);
            assert(whole.skip(n) =~= (a + b).skip(at + n));
            lemma_ahead_twice(at, none, n, none, drain(next, whole.skip(n)));
            assert(none + none =~= none);
        },
        Micro::Give(next, n) => {
            let rest = (a + b).skip(at + n);
            let data = a.subrange(at, at + n);
            assert(r.take(n) =~= data);
            if v.remaining > r.len() {
                lemma_split_data(v, r, b);
                assert(r =~= data);
                assert(rest =~= b);
                lemma_ahead_twice(at, none, n, r, drain(next, b));
            } else {
                assert(micro(v, whole) == micro(v, r));
                assert(whole.skip(n) =~= rest);
                assert(whole.take(n) =~= data);
                lemma_ahead_twice(at, none, n, data, drain(next, rest));
            }
            assert(none + data =~= data);
        },
        Micro::Wait(next) => {
            lemma_less_scan(next, v, whole);
            lemma_ahead_same(at, none, drain(v, whole), drain(next, whole));
        },
        Micro::End(next, n) => {
            lemma_micro_more(v, r, b);
            assert(none + none =~= none);
        },
        Micro::Fail(_) => {
            lemma_micro_more(v, r, b);
        },
    }
}

/// A message is decoded to the same outcome however it arrives: whatever front
/// of what is left each call is shown, the calls are refused for the same
/// reason as one that is shown everything, or report the same body, take the
/// same bytes, are both complete or both not, and leave the same state but for
/// the bytes searched.
pub proof fn law_arrival_makes_no_difference(v: DecoderView, r: Seq<u8>, fronts: Seq<nat>)
    requires
        r.len() <= usize::MAX,
        v.scan + called_searched(v, r, fronts) <= HeadScanBudget::MAX_BYTES,
    ensures
        same_outcome(drain(v, r), called(v, r, fronts)),
        searched(v, r) <= called_searched(v, r, fronts),
    decreases fronts.len(),
{
    if fronts.len() > 0 {
        let a = front(r, fronts[0]);
        let b = r.skip(a.len() as int);
        let more = fronts.skip(1);
        assert(a + b =~= r);
        assert(r.skip(0) =~= r);
        lemma_ahead_none(drain(v, r));
        lemma_call_scan(v, a, 0);
        if let Ok((next, event, to)) = run(v, a, 0) {
            if !(event is Done) {
                law_arrival_makes_no_difference(next, r.skip(to), more);
                let body = match event {
                    ChunkedEvent::Data { offset, len } => a.subrange(
                        offset as int,
                        offset + len,
                    ),
                    _ => Seq::empty(),
                };
                lemma_ahead_same(
                    to,
                    body,
                    drain(next, r.skip(to)),
                    called(next, r.skip(to), more),
                );
            }
        }
        lemma_call(v, a, b, 0);
    }
}

/// Where one call gets to, and what it counts as searched.
proof fn lemma_call_scan(v: DecoderView, a: Seq<u8>, at: int)
    requires
        0 <= at <= a.len(),
    ensures
        run(v, a, at) matches Ok((next, _, to)) ==> at <= to <= a.len() && next.scan == v.scan
            + call_searched(v, a, at),
    decreases a.len() - at,
{
    lemma_run_step(v, a, at);
    lemma_call_searched_step(v, a, at);
    lemma_micro_bounds(v, a.skip(at));
    lemma_scan_counts(v, a.skip(at));
    if let Micro::Go(next, n) = micro(v, a.skip(at)) {
        lemma_call_scan(next, a, at + n);
    }
}

} // verus!
