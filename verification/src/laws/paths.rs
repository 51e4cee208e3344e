//! What a path comes to: dot segments, encoded bytes and the query.
use crate::error::RejectReason;
use crate::laws::classes::law_split_parts_join;
use crate::path::{
    is_dot, is_dot_dot, lemma_bytes_append, lemma_bytes_shift, parse_path, path_byte,
    path_bytes_error, path_text, query_byte, resolve_from, PathPolicy,
};
use crate::text::{find, is_hex, joined, lemma_find, lemma_find_is, split, split_from};
use vstd::prelude::*;

verus! {

// ---- the query ----

/// Whether every byte may stand in a query: visible, and no `#`.
pub open spec fn query_bytes(q: Seq<u8>) -> bool {
    forall|i: int| 0 <= i < q.len() ==> 33 <= #[trigger] q[i] <= 126 && q[i] != 35
}

/// What stands behind the first `?` is the query, as it is; the path before it
/// comes to what it comes to alone.
pub proof fn law_query_stands_behind_the_path(
    p: Seq<u8>,
    q: Seq<u8>,
    policy: PathPolicy,
    max_bytes: u32,
)
    requires
        !p.contains(63u8),
    ensures
        parse_path(p, policy, max_bytes) is Ok ==> (parse_path(
            p,
            policy,
            max_bytes,
        )->Ok_0).1 is None,
        parse_path(p + seq![63u8] + q, policy, max_bytes) == match parse_path(
            p,
            policy,
            max_bytes,
        ) {
            Err(e) => Err(e),
            Ok((path, _)) => if query_bytes(q) {
                Ok((path, Some(q)))
            } else {
                Err(RejectReason::QueryInvalidByte)
            },
        },
{
    let raw = p + seq![63u8] + q;
    let n = p.len() as int;
    assert forall|j: int| 0 <= j < n implies raw[j] != 63u8 && p[j] != 63u8 by {
        assert(p.contains(p[j]));
    }
    assert(raw[n] == 63u8);
    lemma_find_is(raw, 63u8, 0, n);
    lemma_find_is(p, 63u8, 0, n);
    assert(raw.take(n) =~= p);
    assert(p.take(n) =~= p);
    assert(raw.skip(n + 1) =~= q);
    assert(crate::path::query_ok(q) <==> query_bytes(q)) by {
        if query_bytes(q) {
            assert forall|i: int| 0 <= i < q.len() implies query_byte(#[trigger] q[i]) by {
                assert(33 <= q[i] <= 126 && q[i] != 35);
            }
        } else {
            let i = choose|i: int| 0 <= i < q.len() && !(33 <= #[trigger] q[i] <= 126 && q[i] != 35);
            assert(!query_byte(q[i]));
        }
    }
}

// ---- the bytes ----

/// The first byte at which a path is refused, and why: an escape that is cut
/// off, that is not of two hexadecimal digits, that stands for NUL, for a dot,
/// or, where the policy refuses it, for a slash; or a byte that may not stand
/// there. What comes before is fine.
pub proof fn law_refused_path_bytes(a: Seq<u8>, b: Seq<u8>, policy: PathPolicy)
    requires
        path_bytes_error(a, 0, policy) is None,
    ensures
        b.len() == 0 ==> path_bytes_error(a + b, 0, policy) is None,
        b.len() > 0 && b[0] != 37 && path_byte(b[0]) ==> path_bytes_error(a + b, 0, policy)
            == path_bytes_error(b.skip(1), 0, policy),
        b.len() > 0 && b[0] != 37 && !path_byte(b[0]) ==> path_bytes_error(a + b, 0, policy)
            == Some(RejectReason::PathInvalidByte),
        1 <= b.len() <= 2 && b[0] == 37 ==> path_bytes_error(a + b, 0, policy) == Some(
            RejectReason::PathPercentTruncated,
        ),
        b.len() > 2 && b[0] == 37 && !(is_hex(b[1]) && is_hex(b[2])) ==> path_bytes_error(
            a + b,
            0,
            policy,
        ) == Some(RejectReason::PathPercentInvalidHex),
        b.len() > 2 && b[0] == 37 && b[1] == 48 && b[2] == 48 ==> path_bytes_error(a + b, 0, policy)
            == Some(RejectReason::PathEncodedNul),
        b.len() > 2 && b[0] == 37 && b[1] == 50 && (b[2] == 69 || b[2] == 101) ==> path_bytes_error(
            a + b,
            0,
            policy,
        ) == Some(RejectReason::PathEncodedDot),
        b.len() > 2 && b[0] == 37 && b[1] == 50 && (b[2] == 70 || b[2] == 102)
            && policy.encoded_slash is Reject ==> path_bytes_error(a + b, 0, policy) == Some(
            RejectReason::PathEncodedSlash,
        ),
        b.len() > 2 && b[0] == 37 && is_hex(b[1]) && is_hex(b[2]) && !(b[1] == 48 && b[2] == 48)
            && !(b[1] == 50 && (b[2] == 69 || b[2] == 101)) && !(b[1] == 50 && (b[2] == 70 || b[2]
            == 102) && policy.encoded_slash is Reject) ==> path_bytes_error(a + b, 0, policy)
            == path_bytes_error(b.skip(3), 0, policy),
{
    lemma_bytes_append(a, b, 0, policy);
    if b.len() > 0 {
        lemma_bytes_shift(b, 1, 0, policy);
    }
    if b.len() > 2 {
        lemma_bytes_shift(b, 3, 0, policy);
    }
}

/// A path that is empty, too long, or does not begin with a slash is refused.
pub proof fn law_refused_paths(p: Seq<u8>, policy: PathPolicy, max_bytes: u32)
    requires
        !p.contains(63u8),
    ensures
        p.len() == 0 ==> parse_path(p, policy, max_bytes) == Err::<
            (Seq<u8>, Option<Seq<u8>>),
            RejectReason,
        >(RejectReason::PathEmpty),
        p.len() > max_bytes ==> parse_path(p, policy, max_bytes) is Err,
        0 < p.len() && p.len() > max_bytes ==> parse_path(p, policy, max_bytes)->Err_0
            == RejectReason::PathTooLong,
        0 < p.len() <= max_bytes && p[0] != 47 ==> parse_path(p, policy, max_bytes) == Err::<
            (Seq<u8>, Option<Seq<u8>>),
            RejectReason,
        >(RejectReason::PathInvalidByte),
{
    lemma_no_mark(p);
}

proof fn lemma_no_mark(p: Seq<u8>)
    requires
        !p.contains(63u8),
    ensures
        find(p, 63u8, 0) == p.len(),
        p.take(find(p, 63u8, 0)) == p,
{
    assert forall|j: int| 0 <= j < p.len() implies p[j] != 63u8 by {
        assert(p.contains(p[j]));
    }
    lemma_find_is(p, 63u8, 0, p.len() as int);
    assert(p.take(p.len() as int) =~= p);
}

// ---- segments ----

/// The segments of a path that begins with a slash, and none for no path.
pub open spec fn segments_of(p: Seq<u8>) -> Seq<Seq<u8>> {
    if p.len() == 0 {
        Seq::empty()
    } else {
        split(p.skip(1), 47u8)
    }
}

proof fn lemma_find_shift(s: Seq<u8>, b: u8, k: int, i: int)
    requires
        0 <= k <= i <= s.len(),
    ensures
        find(s.skip(k), b, i - k) == find(s, b, i) - k,
{
    lemma_find(s, b, i);
    let at = find(s, b, i);
    let t = s.skip(k);
    if at < s.len() {
        assert(t[at - k] == b);
    }
    assert forall|j: int| i - k <= j < at - k implies t[j] != b by {
        assert(s[j + k] != b);
    }
    lemma_find_is(t, b, i - k, at - k);
}

pub proof fn lemma_split_shift(s: Seq<u8>, b: u8, k: int, i: int)
    requires
        0 <= k <= i <= s.len(),
    ensures
        split_from(s.skip(k), b, i - k) == split_from(s, b, i),
    decreases s.len() - i,
{
    lemma_find(s, b, i);
    lemma_find_shift(s, b, k, i);
    let at = find(s, b, i);
    let t = s.skip(k);
    if at < s.len() {
        lemma_split_shift(s, b, k, at + 1);
        assert(t.subrange(i - k, at - k) =~= s.subrange(i, at));
    } else {
        assert(t.skip(i - k) =~= s.skip(i));
    }
}

/// The parts of two texts with a separator between them are those of the one,
/// then those of the other.
pub proof fn law_split_at_a_separator(x: Seq<u8>, y: Seq<u8>, b: u8)
    ensures
        split(x + seq![b] + y, b) == split(x, b) + split(y, b),
{
    lemma_split_pair(x, y, b, 0);
}

proof fn lemma_split_pair(x: Seq<u8>, y: Seq<u8>, b: u8, i: int)
    requires
        0 <= i <= x.len(),
    ensures
        split_from(x + seq![b] + y, b, i) == split_from(x, b, i) + split(y, b),
    decreases x.len() - i,
{
    let s = x + seq![b] + y;
    let n = x.len() as int;
    lemma_find(x, b, i);
    let at = find(x, b, i);
    assert forall|j: int| 0 <= j < n implies s[j] == x[j] by {}
    assert(s[n] == b);
    lemma_find_is(s, b, i, at);
    if at < n {
        lemma_split_pair(x, y, b, at + 1);
        assert(s.subrange(i, at) =~= x.subrange(i, at));
        assert(split_from(s, b, i) =~= split_from(x, b, i) + split(y, b));
    } else {
        lemma_split_shift(s, b, n + 1, n + 1);
        assert(s.skip(n + 1) =~= y);
        assert(s.subrange(i, n) =~= x.skip(i));
        assert(split_from(s, b, i) =~= split_from(x, b, i) + split(y, b));
    }
}

/// A slash puts the segments behind it after those before it.
proof fn lemma_segments(x: Seq<u8>, t: Seq<u8>)
    requires
        x.len() == 0 || x[0] == 47,
    ensures
        segments_of(x + seq![47u8] + t) == segments_of(x) + split(t, 47u8),
{
    let p = x + seq![47u8] + t;
    if x.len() == 0 {
        assert(p.skip(1) =~= t);
        assert(segments_of(x) + split(t, 47u8) =~= split(t, 47u8));
    } else {
        assert(p.skip(1) =~= x.skip(1) + seq![47u8] + t);
        law_split_at_a_separator(x.skip(1), t, 47u8);
    }
}

/// What the segments before the last ones leave.
spec fn steps(a: Seq<Seq<u8>>, i: int, kept: Seq<Seq<u8>>) -> Result<Seq<Seq<u8>>, RejectReason>
    decreases a.len() - i,
{
    if i >= a.len() {
        Ok(kept)
    } else if is_dot(a[i]) {
        steps(a, i + 1, kept)
    } else if is_dot_dot(a[i]) {
        if kept.len() == 0 {
            Err(RejectReason::PathTraversalAboveRoot)
        } else {
            steps(a, i + 1, kept.drop_last())
        }
    } else {
        steps(a, i + 1, kept.push(a[i]))
    }
}

proof fn lemma_steps(a: Seq<Seq<u8>>, b: Seq<Seq<u8>>, i: int, kept: Seq<Seq<u8>>)
    requires
        0 <= i <= a.len(),
        b.len() > 0,
    ensures
        resolve_from(a + b, i, kept) == match steps(a, i, kept) {
            Err(e) => Err(e),
            Ok(k) => resolve_from(b, 0, k),
        },
    decreases a.len() - i,
{
    let s = a + b;
    if i < a.len() {
        assert(s[i] == a[i]);
        if is_dot(a[i]) {
            lemma_steps(a, b, i + 1, kept);
        } else if is_dot_dot(a[i]) {
            if kept.len() > 0 {
                lemma_steps(a, b, i + 1, kept.drop_last());
            }
        } else {
            lemma_steps(a, b, i + 1, kept.push(a[i]));
        }
    } else {
        lemma_behind(a, b, 0, kept);
    }
}

proof fn lemma_behind(a: Seq<Seq<u8>>, b: Seq<Seq<u8>>, j: int, kept: Seq<Seq<u8>>)
    requires
        0 <= j <= b.len(),
    ensures
        resolve_from(a + b, a.len() + j, kept) == resolve_from(b, j, kept),
    decreases b.len() - j,
{
    let s = a + b;
    let empty = Seq::<u8>::empty();
    if j < b.len() {
        assert(s[a.len() + j] == b[j]);
        let last = j + 1 == b.len();
        if is_dot(b[j]) {
            lemma_behind(
                a,
                b,
                j + 1,
                if last {
                    kept.push(empty)
                } else {
                    kept
                },
            );
        } else if is_dot_dot(b[j]) {
            if kept.len() > 0 {
                lemma_behind(
                    a,
                    b,
                    j + 1,
                    if last {
                        kept.drop_last().push(empty)
                    } else {
                        kept.drop_last()
                    },
                );
            }
        } else {
            lemma_behind(a, b, j + 1, kept.push(b[j]));
        }
    }
}

proof fn lemma_steps_append(a: Seq<Seq<u8>>, b: Seq<Seq<u8>>, i: int, kept: Seq<Seq<u8>>)
    requires
        0 <= i <= a.len(),
    ensures
        steps(a + b, i, kept) == match steps(a, i, kept) {
            Err(e) => Err(e),
            Ok(k) => steps(b, 0, k),
        },
    decreases a.len() - i,
{
    let s = a + b;
    if i < a.len() {
        assert(s[i] == a[i]);
        if is_dot(a[i]) {
            lemma_steps_append(a, b, i + 1, kept);
        } else if is_dot_dot(a[i]) {
            if kept.len() > 0 {
                lemma_steps_append(a, b, i + 1, kept.drop_last());
            }
        } else {
            lemma_steps_append(a, b, i + 1, kept.push(a[i]));
        }
    } else {
        lemma_steps_behind(a, b, 0, kept);
    }
}

proof fn lemma_steps_behind(a: Seq<Seq<u8>>, b: Seq<Seq<u8>>, j: int, kept: Seq<Seq<u8>>)
    requires
        0 <= j <= b.len(),
    ensures
        steps(a + b, a.len() + j, kept) == steps(b, j, kept),
    decreases b.len() - j,
{
    let s = a + b;
    if j < b.len() {
        assert(s[a.len() + j] == b[j]);
        if is_dot(b[j]) {
            lemma_steps_behind(a, b, j + 1, kept);
        } else if is_dot_dot(b[j]) {
            if kept.len() > 0 {
                lemma_steps_behind(a, b, j + 1, kept.drop_last());
            }
        } else {
            lemma_steps_behind(a, b, j + 1, kept.push(b[j]));
        }
    }
}

/// A `.` among the segments is as if it were not there; a segment with `..`
/// behind it neither; and at the end either leaves an empty segment. `..` with
/// nothing before it is refused.
pub proof fn law_dot_segments(a: Seq<Seq<u8>>, s: Seq<u8>, b: Seq<Seq<u8>>)
    requires
        s != seq![46u8],
        s != seq![46u8, 46u8],
    ensures
        ({
            let none = Seq::<Seq<u8>>::empty();
            let dot = seq![seq![46u8]];
            let up = seq![s, seq![46u8, 46u8]];
            let empty = seq![Seq::<u8>::empty()];
            &&& b.len() > 0 ==> resolve_from(a + dot + b, 0, none) == resolve_from(a + b, 0, none)
            &&& b.len() > 0 ==> resolve_from(a + up + b, 0, none) == resolve_from(a + b, 0, none)
            &&& resolve_from(a + dot, 0, none) == resolve_from(a + empty, 0, none)
            &&& resolve_from(a + up, 0, none) == resolve_from(a + empty, 0, none)
            &&& resolve_from(seq![seq![46u8, 46u8]] + b, 0, none) == Err::<
                Seq<Seq<u8>>,
                RejectReason,
            >(RejectReason::PathTraversalAboveRoot)
        }),
{
    let none = Seq::<Seq<u8>>::empty();
    let dot = seq![seq![46u8]];
    let up = seq![s, seq![46u8, 46u8]];
    let empty = seq![Seq::<u8>::empty()];
    let e = Seq::<u8>::empty();
    assert(seq![46u8].len() == 1 && seq![46u8, 46u8].len() == 2);
    reveal_with_fuel(steps, 4);
    reveal_with_fuel(resolve_from, 4);
    if b.len() > 0 {
        lemma_steps(a, b, 0, none);
        lemma_steps(a + dot, b, 0, none);
        lemma_steps_append(a, dot, 0, none);
        lemma_steps(a + up, b, 0, none);
        lemma_steps_append(a, up, 0, none);
        if let Ok(k) = steps(a, 0, none) {
            assert(k.push(s).drop_last() =~= k);
        }
    }
    lemma_steps(a, dot, 0, none);
    lemma_steps(a, up, 0, none);
    lemma_steps(a, empty, 0, none);
    if let Ok(k) = steps(a, 0, none) {
        assert(k.push(s).drop_last().push(e) =~= k.push(e));
        assert(!is_dot(e) && !is_dot_dot(e));
    }
    let r = seq![seq![46u8, 46u8]] + b;
    assert(r[0] == seq![46u8, 46u8]);
}

/// Segments without dots stay as they are.
pub proof fn law_plain_segments_stay(a: Seq<Seq<u8>>)
    requires
        forall|i: int|
            0 <= i < a.len() ==> #[trigger] a[i] != seq![46u8] && a[i] != seq![46u8, 46u8],
    ensures
        resolve_from(a, 0, Seq::empty()) == Ok::<Seq<Seq<u8>>, RejectReason>(a),
{
    lemma_plain(a, 0);
    assert(a.take(0) =~= Seq::<Seq<u8>>::empty());
}

proof fn lemma_plain(a: Seq<Seq<u8>>, i: int)
    requires
        0 <= i <= a.len(),
        forall|j: int|
            0 <= j < a.len() ==> #[trigger] a[j] != seq![46u8] && a[j] != seq![46u8, 46u8],
    ensures
        resolve_from(a, i, a.take(i)) == Ok::<Seq<Seq<u8>>, RejectReason>(a),
    decreases a.len() - i,
{
    if i < a.len() {
        assert(a[i] != seq![46u8] && a[i] != seq![46u8, 46u8]);
        assert(a.take(i).push(a[i]) =~= a.take(i + 1));
        lemma_plain(a, i + 1);
    } else {
        assert(a.take(i) =~= a);
    }
}

// ---- paths ----

proof fn lemma_path_text(segs: Seq<Seq<u8>>)
    requires
        segs.len() > 0,
    ensures
        path_text(segs) == seq![47u8] + joined(segs, 47u8),
    decreases segs.len(),
{
    if segs.len() == 1 {
        assert(segs.drop_last() =~= Seq::<Seq<u8>>::empty());
        assert(path_text(segs.drop_last()) =~= Seq::<u8>::empty());
        assert(path_text(segs) =~= seq![47u8] + joined(segs, 47u8));
    } else {
        let d = segs.drop_last();
        lemma_path_text(d);
        lemma_joined_push(d, segs.last());
        assert(d.push(segs.last()) =~= segs);
        assert(path_text(segs) =~= seq![47u8] + joined(segs, 47u8));
    }
}

proof fn lemma_joined_push(d: Seq<Seq<u8>>, x: Seq<u8>)
    requires
        d.len() > 0,
    ensures
        joined(d.push(x), 47u8) == joined(d, 47u8) + seq![47u8] + x,
    decreases d.len(),
{
    let p = d.push(x);
    if d.len() == 1 {
        assert(p.skip(1) =~= seq![x]);
        assert(joined(seq![x], 47u8) == x);
        assert(joined(d, 47u8) == d[0]);
        assert(joined(p, 47u8) =~= joined(d, 47u8) + seq![47u8] + x);
    } else {
        assert(p.skip(1) =~= d.skip(1).push(x));
        lemma_joined_push(d.skip(1), x);
        assert(joined(p, 47u8) =~= joined(d, 47u8) + seq![47u8] + x);
    }
}

/// A path of bytes that may stand there, without dot segments, stays as it is.
pub proof fn law_plain_path_stays(p: Seq<u8>, policy: PathPolicy, max_bytes: u32)
    requires
        0 < p.len() <= max_bytes,
        p[0] == 47,
        !p.contains(63u8),
        path_bytes_error(p, 0, policy) is None,
        forall|i: int|
            0 <= i < segments_of(p).len() ==> #[trigger] segments_of(p)[i] != seq![46u8]
                && segments_of(p)[i] != seq![46u8, 46u8],
    ensures
        parse_path(p, policy, max_bytes) == Ok::<(Seq<u8>, Option<Seq<u8>>), RejectReason>(
            (p, None),
        ),
{
    lemma_no_mark(p);
    let segs = segments_of(p);
    law_plain_segments_stay(segs);
    law_split_parts_join(p.skip(1), 47u8);
    lemma_path_text(segs);
    assert(p =~= seq![47u8] + p.skip(1));
}

/// The bytes of letters, digits and the marks of a path are fine.
pub proof fn law_path_bytes_are_fine(p: Seq<u8>, policy: PathPolicy)
    requires
        forall|i: int|
            0 <= i < p.len() ==> 48 <= #[trigger] p[i] <= 57 || 65 <= p[i] <= 90 || 97 <= p[i]
                <= 122 || p[i] == 33 || p[i] == 36 || 38 <= p[i] <= 47 || p[i] == 58 || p[i] == 59
                || p[i] == 61 || p[i] == 64 || p[i] == 95 || p[i] == 126,
    ensures
        path_bytes_error(p, 0, policy) is None,
{
    lemma_fine(p, 0, policy);
}

proof fn lemma_fine(p: Seq<u8>, i: int, policy: PathPolicy)
    requires
        0 <= i <= p.len(),
        forall|j: int|
            0 <= j < p.len() ==> 48 <= #[trigger] p[j] <= 57 || 65 <= p[j] <= 90 || 97 <= p[j]
                <= 122 || p[j] == 33 || p[j] == 36 || 38 <= p[j] <= 47 || p[j] == 58 || p[j] == 59
                || p[j] == 61 || p[j] == 64 || p[j] == 95 || p[j] == 126,
    ensures
        path_bytes_error(p, i, policy) is None,
    decreases p.len() - i,
{
    if i < p.len() {
        assert(p[i] != 37 && path_byte(p[i]));
        lemma_fine(p, i + 1, policy);
    }
}

/// What is asked of the two halves of a path: the first is nothing or begins
/// with a slash, the second is not read as a query.
pub open spec fn halves(x: Seq<u8>, t: Seq<u8>) -> bool {
    (x.len() == 0 || x[0] == 47) && !x.contains(63u8) && !t.contains(63u8)
}

proof fn lemma_parts(x: Seq<u8>, t: Seq<u8>, policy: PathPolicy, max_bytes: u32)
    requires
        halves(x, t),
        path_bytes_error(x, 0, policy) is None,
        path_bytes_error(t, 0, policy) is None,
        x.len() + 1 + t.len() <= max_bytes,
    ensures
        parse_path(x + seq![47u8] + t, policy, max_bytes) == match resolve_from(
            segments_of(x) + split(t, 47u8),
            0,
            Seq::empty(),
        ) {
            Err(e) => Err::<(Seq<u8>, Option<Seq<u8>>), RejectReason>(e),
            Ok(segs) => Ok((path_text(segs), None)),
        },
{
    let p = x + seq![47u8] + t;
    assert(!p.contains(63u8)) by {
        if p.contains(63u8) {
            let i = choose|i: int| 0 <= i < p.len() && p[i] == 63u8;
            if i < x.len() {
                assert(x.contains(x[i]));
            } else if i > x.len() {
                assert(t.contains(t[i - x.len() - 1]));
            }
        }
    }
    lemma_no_mark(p);
    lemma_segments(x, t);
    lemma_bytes_append(x, seq![47u8] + t, 0, policy);
    assert(x + (seq![47u8] + t) =~= p);
    let u = seq![47u8] + t;
    lemma_bytes_shift(u, 1, 0, policy);
    assert(u.skip(1) =~= t);
    assert(u[0] == 47);
    assert(p[0] == 47);
}

/// `/.` before a further segment may be left out, and at the end it is a slash.
pub proof fn law_dot_in_a_path(x: Seq<u8>, t: Seq<u8>, policy: PathPolicy, max_bytes: u32)
    requires
        halves(x, t),
        path_bytes_error(x, 0, policy) is None,
        path_bytes_error(t, 0, policy) is None,
        x.len() + 3 + t.len() <= max_bytes,
    ensures
        parse_path(x + seq![47u8, 46u8, 47u8] + t, policy, max_bytes) == parse_path(
            x + seq![47u8] + t,
            policy,
            max_bytes,
        ),
        parse_path(x + seq![47u8, 46u8], policy, max_bytes) == parse_path(
            x + seq![47u8],
            policy,
            max_bytes,
        ),
{
    let dot = seq![46u8];
    let e = Seq::<u8>::empty();
    let dt = dot + seq![47u8] + t;
    lemma_single(dot);
    lemma_single(e);
    law_split_at_a_separator(dot, t, 47u8);
    lemma_dot_bytes(t, policy);
    assert(!dt.contains(63u8)) by {
        if dt.contains(63u8) {
            let i = choose|i: int| 0 <= i < dt.len() && dt[i] == 63u8;
            assert(t.contains(t[i - 2]));
        }
    }
    lemma_parts(x, dt, policy, max_bytes);
    lemma_parts(x, t, policy, max_bytes);
    assert(x + seq![47u8] + dt =~= x + seq![47u8, 46u8, 47u8] + t);
    law_dot_segments(segments_of(x), seq![97u8], split(t, 47u8));
    law_split_parts_join(t, 47u8);
    assert(segments_of(x) + split(dt, 47u8) =~= segments_of(x) + seq![dot] + split(t, 47u8));
    assert(path_bytes_error(dot, 0, policy) is None) by {
        reveal_with_fuel(path_bytes_error, 3);
    }
    assert(path_bytes_error(e, 0, policy) is None);
    lemma_parts(x, dot, policy, max_bytes);
    lemma_parts(x, e, policy, max_bytes);
    assert(x + seq![47u8] + dot =~= x + seq![47u8, 46u8]);
    assert(x + seq![47u8] + e =~= x + seq![47u8]);
}

proof fn lemma_single(s: Seq<u8>)
    requires
        forall|i: int| 0 <= i < s.len() ==> #[trigger] s[i] != 47,
    ensures
        split(s, 47u8) == seq![s],
{
    lemma_find_is(s, 47u8, 0, s.len() as int);
    assert(s.skip(0) =~= s);
    assert(split(s, 47u8) =~= seq![s]);
}

proof fn lemma_dot_bytes(t: Seq<u8>, policy: PathPolicy)
    requires
        path_bytes_error(t, 0, policy) is None,
    ensures
        path_bytes_error(seq![46u8] + seq![47u8] + t, 0, policy) is None,
        path_bytes_error(seq![46u8, 46u8] + seq![47u8] + t, 0, policy) is None,
{
    let a = seq![46u8] + seq![47u8];
    let b = seq![46u8, 46u8] + seq![47u8];
    law_path_bytes_are_fine(a, policy);
    law_path_bytes_are_fine(b, policy);
    lemma_bytes_append(a, t, 0, policy);
    lemma_bytes_append(b, t, 0, policy);
}

/// A segment with `/..` behind it may be left out together with it, and at the
/// end leaves its slash.
pub proof fn law_dot_dot_in_a_path(
    x: Seq<u8>,
    s: Seq<u8>,
    t: Seq<u8>,
    policy: PathPolicy,
    max_bytes: u32,
)
    requires
        halves(x, t),
        !s.contains(63u8),
        forall|i: int| 0 <= i < s.len() ==> #[trigger] s[i] != 47,
        s != seq![46u8],
        s != seq![46u8, 46u8],
        path_bytes_error(x, 0, policy) is None,
        path_bytes_error(s, 0, policy) is None,
        path_bytes_error(t, 0, policy) is None,
        x.len() + 1 + s.len() + 4 + t.len() <= max_bytes,
    ensures
        parse_path(x + seq![47u8] + s + seq![47u8, 46u8, 46u8, 47u8] + t, policy, max_bytes)
            == parse_path(x + seq![47u8] + t, policy, max_bytes),
        parse_path(x + seq![47u8] + s + seq![47u8, 46u8, 46u8], policy, max_bytes) == parse_path(
            x + seq![47u8],
            policy,
            max_bytes,
        ),
{
    let up = seq![46u8, 46u8];
    let e = Seq::<u8>::empty();
    let ut = up + seq![47u8] + t;
    let sut = s + seq![47u8] + ut;
    let su = s + seq![47u8] + up;
    lemma_single(s);
    lemma_single(up);
    lemma_single(e);
    law_split_at_a_separator(up, t, 47u8);
    law_split_at_a_separator(s, ut, 47u8);
    law_split_at_a_separator(s, up, 47u8);
    lemma_dot_bytes(t, policy);
    law_path_bytes_are_fine(up, policy);
    lemma_slash_between(s, ut, policy);
    lemma_slash_between(s, up, policy);
    assert(!ut.contains(63u8)) by {
        if ut.contains(63u8) {
            let i = choose|i: int| 0 <= i < ut.len() && ut[i] == 63u8;
            assert(t.contains(t[i - 3]));
        }
    }
    lemma_no_mark_between(s, ut);
    lemma_no_mark_between(s, up);
    lemma_parts(x, sut, policy, max_bytes);
    lemma_parts(x, t, policy, max_bytes);
    lemma_parts(x, su, policy, max_bytes);
    lemma_parts(x, e, policy, max_bytes);
    assert(x + seq![47u8] + sut =~= x + seq![47u8] + s + seq![47u8, 46u8, 46u8, 47u8] + t);
    assert(x + seq![47u8] + su =~= x + seq![47u8] + s + seq![47u8, 46u8, 46u8]);
    assert(x + seq![47u8] + e =~= x + seq![47u8]);
    law_dot_segments(segments_of(x), s, split(t, 47u8));
    law_split_parts_join(t, 47u8);
    assert(segments_of(x) + split(sut, 47u8) =~= segments_of(x) + seq![s, up] + split(t, 47u8));
    assert(segments_of(x) + split(su, 47u8) =~= segments_of(x) + seq![s, up]);
}

proof fn lemma_slash_between(s: Seq<u8>, t: Seq<u8>, policy: PathPolicy)
    requires
        path_bytes_error(s, 0, policy) is None,
        path_bytes_error(t, 0, policy) is None,
    ensures
        path_bytes_error(s + seq![47u8] + t, 0, policy) is None,
{
    let u = seq![47u8] + t;
    lemma_bytes_append(s, u, 0, policy);
    assert(s + u =~= s + seq![47u8] + t);
    lemma_bytes_shift(u, 1, 0, policy);
    assert(u.skip(1) =~= t);
    assert(u[0] == 47);
}

proof fn lemma_no_mark_between(s: Seq<u8>, t: Seq<u8>)
    requires
        !s.contains(63u8),
        !t.contains(63u8),
    ensures
        !(s + seq![47u8] + t).contains(63u8),
{
    let p = s + seq![47u8] + t;
    if p.contains(63u8) {
        let i = choose|i: int| 0 <= i < p.len() && p[i] == 63u8;
        if i < s.len() {
            assert(s.contains(s[i]));
        } else if i > s.len() {
            assert(t.contains(t[i - s.len() - 1]));
        }
    }
}

/// `/..` at the front of a path is refused.
pub proof fn law_above_the_root(t: Seq<u8>, policy: PathPolicy, max_bytes: u32)
    requires
        !t.contains(63u8),
        path_bytes_error(t, 0, policy) is None,
        4 + t.len() <= max_bytes,
    ensures
        parse_path(seq![47u8, 46u8, 46u8, 47u8] + t, policy, max_bytes) == Err::<
            (Seq<u8>, Option<Seq<u8>>),
            RejectReason,
        >(RejectReason::PathTraversalAboveRoot),
        parse_path(seq![47u8, 46u8, 46u8], policy, max_bytes) == Err::<
            (Seq<u8>, Option<Seq<u8>>),
            RejectReason,
        >(RejectReason::PathTraversalAboveRoot),
{
    let up = seq![46u8, 46u8];
    let x = Seq::<u8>::empty();
    let ut = up + seq![47u8] + t;
    lemma_single(up);
    law_split_at_a_separator(up, t, 47u8);
    lemma_dot_bytes(t, policy);
    law_path_bytes_are_fine(up, policy);
    lemma_no_mark_between(up, t);
    lemma_parts(x, ut, policy, max_bytes);
    lemma_parts(x, up, policy, max_bytes);
    assert(x + seq![47u8] + ut =~= seq![47u8, 46u8, 46u8, 47u8] + t);
    assert(x + seq![47u8] + up =~= seq![47u8, 46u8, 46u8]);
    law_dot_segments(Seq::empty(), seq![97u8], split(t, 47u8));
    law_dot_segments(Seq::empty(), seq![97u8], Seq::empty());
    assert(segments_of(x) + split(ut, 47u8) =~= seq![up] + split(t, 47u8));
    assert(segments_of(x) + split(up, 47u8) =~= seq![up] + Seq::<Seq<u8>>::empty());
}

} // verus!
