//! Request targets and paths.
//!
//! There is one path value: the normalized one. Percent-encodings are
//! checked and kept as they are; those that would hide a dot segment, a slash
//! or a NUL are refused. Dot segments are resolved, and a path that climbs
//! above the root is refused.
use crate::error::RejectReason;
use crate::ext::{bytes_of, content, find_sub, frozen, has_room, put_u8};
use crate::limits::ClampedLimits;
use crate::scalar::Method;
use crate::text::{
    digit, find, find_seq, hex, hex_value, index_from, is_digit, is_hex, is_lower, is_upper,
    lemma_find, lemma_find_seq, lemma_find_seq_is, split, split_on, upper, views,
};
use bytes::{Bytes, BytesMut};
use vstd::prelude::*;
use vstd::slice::slice_subrange;

verus! {

/// The form of a request target.
#[derive(Copy, Clone, Debug, PartialEq, Eq, Structural)]
pub enum TargetForm {
    /// `/path?query`.
    Origin,
    /// `*`.
    Asterisk,
    /// `host:port`.
    Authority,
    /// `scheme://authority/path`.
    Absolute,
}

/// What stands behind a scheme.
pub open spec fn scheme_mark() -> Seq<u8> {
    seq![':' as u8, '/' as u8, '/' as u8]
}

/// The first `://` of a target.
pub(crate) fn find_scheme_mark(target: &[u8]) -> (r: Option<usize>)
    ensures
        match r {
            Some(i) => find_seq(target@, scheme_mark(), 0) == Some(i as int) && i + 3
                <= target@.len(),
            None => find_seq(target@, scheme_mark(), 0) is None,
        },
{
    let needle: [u8; 3] = [':' as u8, '/' as u8, '/' as u8];
    assert(needle@ =~= scheme_mark());
    let r = find_sub(target, needle.as_slice());
    proof {
        match r {
            Some(i) => lemma_find_seq_is(target@, scheme_mark(), 0, i as int),
            None => lemma_find_seq(target@, scheme_mark(), 0),
        }
    }
    r
}

/// The form of a target: that of `CONNECT` is an authority, that of `OPTIONS`
/// may be `*`, and any other is a path or has a scheme.
pub open spec fn target_form(target: Seq<u8>, method: Method) -> Result<TargetForm, RejectReason> {
    if method is Connect {
        Ok(TargetForm::Authority)
    } else if target == seq!['*' as u8] {
        if method is Options {
            Ok(TargetForm::Asterisk)
        } else {
            Err(RejectReason::TargetFormInvalid)
        }
    } else if target.len() > 0 && target[0] == '/' as u8 {
        Ok(TargetForm::Origin)
    } else if find_seq(target, scheme_mark(), 0) is Some {
        Ok(TargetForm::Absolute)
    } else {
        Err(RejectReason::TargetFormInvalid)
    }
}

/// Tells the form of a target.
pub fn classify_target(target: &[u8], method: &Method) -> (r: Result<TargetForm, RejectReason>)
    ensures
        r == target_form(target@, *method),
{
    if method.is_connect() {
        return Ok(TargetForm::Authority);
    }
    let star = target.len() == 1 && target[0] == '*' as u8;
    proof {
        if star {
            assert(target@ =~= seq!['*' as u8]);
        }
    }
    if star {
        return if method.is_options() {
            Ok(TargetForm::Asterisk)
        } else {
            Err(RejectReason::TargetFormInvalid)
        };
    }
    if target.len() > 0 && target[0] == '/' as u8 {
        return Ok(TargetForm::Origin);
    }
    match find_scheme_mark(target) {
        Some(_) => Ok(TargetForm::Absolute),
        None => Err(RejectReason::TargetFormInvalid),
    }
}

/// What to do about an encoded slash in a path.
#[derive(Copy, Clone, Debug, PartialEq, Eq, Structural)]
pub enum EncodedSlash {
    /// Refuse it. The default.
    Reject,
    /// Keep it as it is.
    Keep,
}

/// How paths are normalized.
#[derive(Copy, Clone, Debug, PartialEq, Eq, Structural)]
pub struct PathPolicy {
    /// What to do about an encoded slash.
    pub encoded_slash: EncodedSlash,
}

impl Default for PathPolicy {
    fn default() -> (r: Self)
        ensures
            r.encoded_slash is Reject,
    {
        PathPolicy { encoded_slash: EncodedSlash::Reject }
    }
}

/// A byte that may stand in a path as itself.
pub open spec fn path_byte(b: u8) -> bool {
    ||| is_digit(b)
    ||| is_lower(b)
    ||| is_upper(b)
    ||| b == '!' as u8
    ||| b == '$' as u8
    ||| '&' as u8 <= b <= '/' as u8
    ||| b == ':' as u8
    ||| b == ';' as u8
    ||| b == '=' as u8
    ||| b == '@' as u8
    ||| b == '_' as u8
    ||| b == '~' as u8
}

fn is_path_byte(b: u8) -> (r: bool)
    ensures
        r == path_byte(b),
{
    digit(b) || upper(b) || 'a' as u8 <= b && b <= 'z' as u8 || b == '!' as u8 || b == '$' as u8
        || '&' as u8 <= b && b <= '/' as u8 || b == ':' as u8 || b == ';' as u8 || b == '=' as u8
        || b == '@' as u8 || b == '_' as u8 || b == '~' as u8
}

/// What is wrong with the bytes of a path from `i` on.
pub open spec fn path_bytes_error(p: Seq<u8>, i: int, policy: PathPolicy) -> Option<RejectReason>
    decreases p.len() - i,
{
    if i >= p.len() {
        None
    } else if p[i] == '%' as u8 {
        if i + 2 >= p.len() {
            Some(RejectReason::PathPercentTruncated)
        } else if !is_hex(p[i + 1]) || !is_hex(p[i + 2]) {
            Some(RejectReason::PathPercentInvalidHex)
        } else {
            let v = hex_value(p[i + 1]) * 16 + hex_value(p[i + 2]);
            if v == 0 {
                Some(RejectReason::PathEncodedNul)
            } else if v == '.' as u8 {
                Some(RejectReason::PathEncodedDot)
            } else if v == '/' as u8 && policy.encoded_slash is Reject {
                Some(RejectReason::PathEncodedSlash)
            } else {
                path_bytes_error(p, i + 3, policy)
            }
        }
    } else if !path_byte(p[i]) {
        Some(RejectReason::PathInvalidByte)
    } else {
        path_bytes_error(p, i + 1, policy)
    }
}

fn hex_of(b: u8) -> (r: u16)
    requires
        is_hex(b),
    ensures
        r == hex_value(b),
        r < 16,
{
    if digit(b) {
        (b - '0' as u8) as u16
    } else if 'a' as u8 <= b {
        (b - 'a' as u8 + 10) as u16
    } else {
        (b - 'A' as u8 + 10) as u16
    }
}

fn check_path_bytes(p: &[u8], policy: &PathPolicy) -> (r: Result<(), RejectReason>)
    ensures
        match r {
            Ok(()) => path_bytes_error(p@, 0, *policy) is None,
            Err(e) => path_bytes_error(p@, 0, *policy) == Some(e),
        },
{
    let mut i: usize = 0;
    while i < p.len()
        invariant
            i <= p@.len(),
            path_bytes_error(p@, 0, *policy) == path_bytes_error(p@, i as int, *policy),
        decreases p@.len() - i,
    {
        let b: u8 = p[i];
        if b == '%' as u8 {
            if p.len() - i < 3 {
                return Err(RejectReason::PathPercentTruncated);
            }
            if !hex(p[i + 1]) || !hex(p[i + 2]) {
                return Err(RejectReason::PathPercentInvalidHex);
            }
            let v: u16 = hex_of(p[i + 1]) * 16 + hex_of(p[i + 2]);
            if v == 0 {
                return Err(RejectReason::PathEncodedNul);
            }
            if v == '.' as u16 {
                return Err(RejectReason::PathEncodedDot);
            }
            if v == '/' as u16 && matches!(policy.encoded_slash, EncodedSlash::Reject) {
                return Err(RejectReason::PathEncodedSlash);
            }
            i += 3;
        } else {
            if !is_path_byte(b) {
                return Err(RejectReason::PathInvalidByte);
            }
            i += 1;
        }
    }
    Ok(())
}

/// A segment that names the directory it stands in.
pub open spec fn is_dot(s: Seq<u8>) -> bool {
    s == seq!['.' as u8]
}

/// A segment that names the directory above.
pub open spec fn is_dot_dot(s: Seq<u8>) -> bool {
    s == seq!['.' as u8, '.' as u8]
}

/// The segments from `i` on, taken onto those already kept. A dot segment at
/// the end leaves an empty one in its place.
pub open spec fn resolve_from(segs: Seq<Seq<u8>>, i: int, kept: Seq<Seq<u8>>) -> Result<
    Seq<Seq<u8>>,
    RejectReason,
>
    decreases segs.len() - i,
{
    let last = i + 1 == segs.len();
    let empty = Seq::<u8>::empty();
    if i >= segs.len() {
        Ok(kept)
    } else if is_dot(segs[i]) {
        resolve_from(
            segs,
            i + 1,
            if last {
                kept.push(empty)
            } else {
                kept
            },
        )
    } else if is_dot_dot(segs[i]) {
        if kept.len() == 0 {
            Err(RejectReason::PathTraversalAboveRoot)
        } else {
            resolve_from(
                segs,
                i + 1,
                if last {
                    kept.drop_last().push(empty)
                } else {
                    kept.drop_last()
                },
            )
        }
    } else {
        resolve_from(segs, i + 1, kept.push(segs[i]))
    }
}

/// Segments with a slash before each.
pub open spec fn path_text(segs: Seq<Seq<u8>>) -> Seq<u8>
    decreases segs.len(),
{
    if segs.len() == 0 {
        Seq::empty()
    } else {
        path_text(segs.drop_last()).push('/' as u8) + segs.last()
    }
}

/// A byte that may stand in a query: a visible one other than `#`.
pub open spec fn query_byte(b: u8) -> bool {
    0x21 <= b <= 0x7e && b != '#' as u8
}

/// Whether every byte may stand in a query.
pub open spec fn query_ok(q: Seq<u8>) -> bool {
    forall|i: int| 0 <= i < q.len() ==> query_byte(#[trigger] q[i])
}

/// What a target says as a path and a query.
pub open spec fn parse_path(raw: Seq<u8>, policy: PathPolicy, max_bytes: u32) -> Result<
    (Seq<u8>, Option<Seq<u8>>),
    RejectReason,
> {
    let mark = find(raw, '?' as u8, 0);
    let path = raw.take(mark);
    if path.len() == 0 {
        Err(RejectReason::PathEmpty)
    } else if path.len() > max_bytes {
        Err(RejectReason::PathTooLong)
    } else if path[0] != '/' as u8 {
        Err(RejectReason::PathInvalidByte)
    } else if path_bytes_error(path, 0, policy) is Some {
        Err(path_bytes_error(path, 0, policy)->Some_0)
    } else {
        match resolve_from(split(path.skip(1), '/' as u8), 0, Seq::empty()) {
            Err(e) => Err(e),
            Ok(segs) => if mark == raw.len() {
                Ok((path_text(segs), None))
            } else if !query_ok(raw.skip(mark + 1)) {
                Err(RejectReason::QueryInvalidByte)
            } else {
                Ok((path_text(segs), Some(raw.skip(mark + 1))))
            },
        }
    }
}

/// The one path value: absolute, without dot segments.
#[derive(Debug)]
pub struct NormalizedPath {
    buf: Bytes,
}

impl View for NormalizedPath {
    type V = Seq<u8>;

    closed spec fn view(&self) -> Seq<u8> {
        frozen(self.buf)
    }
}

impl Clone for NormalizedPath {
    fn clone(&self) -> (r: Self)
        ensures
            r@ == self@,
    {
        NormalizedPath { buf: self.buf.clone() }
    }
}

/// A query, as it was received.
#[derive(Debug)]
pub struct RawQuery {
    buf: Bytes,
}

impl View for RawQuery {
    type V = Seq<u8>;

    closed spec fn view(&self) -> Seq<u8> {
        frozen(self.buf)
    }
}

impl Clone for RawQuery {
    fn clone(&self) -> (r: Self)
        ensures
            r@ == self@,
    {
        RawQuery { buf: self.buf.clone() }
    }
}

impl RawQuery {
    /// The bytes of the query, without the `?`.
    #[must_use]
    pub fn as_bytes(&self) -> (r: &[u8])
        ensures
            r@ == self@,
    {
        bytes_of(&self.buf)
    }

    /// The length of the query, without the `?`.
    #[must_use]
    pub fn len(&self) -> (r: usize)
        ensures
            r == self@.len(),
    {
        self.as_bytes().len()
    }
}

/// The sum of the lengths of segments, each with its slash.
spec fn text_len(segs: Seq<Seq<u8>>) -> int
    decreases segs.len(),
{
    if segs.len() == 0 {
        0
    } else {
        text_len(segs.drop_last()) + segs.last().len() + 1
    }
}

proof fn lemma_path_text_len(segs: Seq<Seq<u8>>)
    ensures
        path_text(segs).len() == text_len(segs),
    decreases segs.len(),
{
    if segs.len() > 0 {
        lemma_path_text_len(segs.drop_last());
    }
}

/// The length of the segments from `i` on, each with its slash.
spec fn rest_len(segs: Seq<Seq<u8>>, i: int) -> int
    decreases segs.len() - i,
{
    if i >= segs.len() {
        0
    } else {
        rest_len(segs, i + 1) + segs[i].len() + 1
    }
}

proof fn lemma_split_rest_len(s: Seq<u8>, b: u8, from: int)
    requires
        0 <= from <= s.len(),
    ensures
        rest_len(crate::text::split_from(s, b, from), 0) == s.len() - from + 1,
    decreases s.len() - from,
{
    lemma_find(s, b, from);
    let at = find(s, b, from);
    let parts = crate::text::split_from(s, b, from);
    if at < s.len() {
        lemma_split_rest_len(s, b, at + 1);
        let tail = crate::text::split_from(s, b, at + 1);
        assert(parts =~= seq![s.subrange(from, at)] + tail);
        lemma_rest_len_shift(parts, tail, 0);
    } else {
        assert(rest_len(parts, 1) == 0);
    }
}

proof fn lemma_rest_len_shift(parts: Seq<Seq<u8>>, tail: Seq<Seq<u8>>, i: int)
    requires
        parts.len() == tail.len() + 1,
        0 <= i <= tail.len(),
        forall|k: int| 0 <= k < tail.len() ==> parts[k + 1] == #[trigger] tail[k],
    ensures
        rest_len(parts, i + 1) == rest_len(tail, i),
    decreases tail.len() - i,
{
    if i < tail.len() {
        lemma_rest_len_shift(parts, tail, i + 1);
        assert(parts[i + 1] == tail[i]);
    }
}

impl NormalizedPath {
    /// Reads a path and its query.
    ///
    /// Both are built at the end of `out` and taken from there, so `out` holds
    /// afterwards what it held before.
    pub fn parse_into(
        raw: &[u8],
        policy: &PathPolicy,
        limits: &ClampedLimits,
        out: &mut BytesMut,
    ) -> (r: Result<(NormalizedPath, Option<RawQuery>), RejectReason>)
        requires
            has_room(content(*old(out)).len() as int, raw@.len() as int),
        ensures
            content(*final(out)) == content(*old(out)),
            match r {
                Ok((p, q)) => parse_path(raw@, *policy, limits@.max_path_bytes) == Ok::<
                    (Seq<u8>, Option<Seq<u8>>),
                    RejectReason,
                >(
                    (
                        p@,
                        match q {
                            Some(q) => Some(q@),
                            None => None,
                        },
                    ),
                ),
                Err(e) => parse_path(raw@, *policy, limits@.max_path_bytes) == Err::<
                    (Seq<u8>, Option<Seq<u8>>),
                    RejectReason,
                >(e),
            },
    {
        let mark: usize = index_from(raw, '?' as u8, 0);
        let path = slice_subrange(raw, 0, mark);
        if path.len() == 0 {
            return Err(RejectReason::PathEmpty);
        }
        if path.len() > limits.get().max_path_bytes as usize {
            return Err(RejectReason::PathTooLong);
        }
        if path[0] != '/' as u8 {
            return Err(RejectReason::PathInvalidByte);
        }
        check_path_bytes(path, policy)?;
        let rest = slice_subrange(path, 1, path.len());
        assert(rest@ =~= path@.skip(1));
        let segs = split_on(rest, '/' as u8);
        let ghost parts = views(segs@);
        let ghost whole = resolve_from(parts, 0, Seq::empty());
        let mut kept: Vec<&[u8]> = Vec::new();
        let empty = slice_subrange(path, 0, 0);
        let mut i: usize = 0;
        proof {
            assert(views(kept@) =~= Seq::<Seq<u8>>::empty());
            assert(empty@ =~= Seq::<u8>::empty());
            lemma_split_rest_len(rest@, '/' as u8, 0);
        }
        while i < segs.len()
            invariant
                i <= segs@.len(),
                parts == views(segs@),
                empty@ == Seq::<u8>::empty(),
                content(*out) == content(*old(out)),
                parse_path(raw@, *policy, limits@.max_path_bytes) == (match whole {
                    Err(e) => Err::<(Seq<u8>, Option<Seq<u8>>), RejectReason>(e),
                    Ok(segs) => if mark == raw@.len() {
                        Ok((path_text(segs), None))
                    } else if !query_ok(raw@.skip(mark + 1)) {
                        Err(RejectReason::QueryInvalidByte)
                    } else {
                        Ok((path_text(segs), Some(raw@.skip(mark + 1))))
                    },
                }),
                whole == resolve_from(parts, i as int, views(kept@)),
                text_len(views(kept@)) + rest_len(parts, i as int) <= path@.len(),
            decreases segs@.len() - i,
        {
            let seg = segs[i];
            let last = i + 1 == segs.len();
            let ghost before = kept@;
            assert(parts[i as int] == seg@);
            let dot = seg.len() == 1 && seg[0] == '.' as u8;
            let dot_dot = seg.len() == 2 && seg[0] == '.' as u8 && seg[1] == '.' as u8;
            proof {
                if dot {
                    assert(seg@ =~= seq!['.' as u8]);
                }
                if dot_dot {
                    assert(seg@ =~= seq!['.' as u8, '.' as u8]);
                }
            }
            if dot {
                if last {
                    kept.push(empty);
                    proof {
                        assert(views(kept@) =~= views(before).push(empty@));
                        assert(views(kept@).drop_last() =~= views(before));
                    }
                }
            } else if dot_dot {
                if kept.len() == 0 {
                    return Err(RejectReason::PathTraversalAboveRoot);
                }
                let _gone = kept.pop();
                proof {
                    assert(views(kept@) =~= views(before).drop_last());
                }
                if last {
                    let ghost mid = kept@;
                    kept.push(empty);
                    proof {
                        assert(views(kept@) =~= views(mid).push(empty@));
                        assert(views(kept@).drop_last() =~= views(mid));
                    }
                }
            } else {
                kept.push(seg);
                proof {
                    assert(views(kept@) =~= views(before).push(seg@));
                    assert(views(kept@).drop_last() =~= views(before));
                }
            }
            i += 1;
        }
        let query: &[u8] = if mark < raw.len() {
            slice_subrange(raw, mark + 1, raw.len())
        } else {
            empty
        };
        let mut k: usize = 0;
        while k < query.len()
            invariant
                k <= query@.len(),
                mark < raw@.len() ==> query@ == raw@.skip(mark + 1),
                mark >= raw@.len() ==> query@.len() == 0,
                content(*out) == content(*old(out)),
                whole == Ok::<Seq<Seq<u8>>, RejectReason>(views(kept@)),
                parse_path(raw@, *policy, limits@.max_path_bytes) == (match whole {
                    Err(e) => Err::<(Seq<u8>, Option<Seq<u8>>), RejectReason>(e),
                    Ok(segs) => if mark == raw@.len() {
                        Ok((path_text(segs), None))
                    } else if !query_ok(raw@.skip(mark + 1)) {
                        Err(RejectReason::QueryInvalidByte)
                    } else {
                        Ok((path_text(segs), Some(raw@.skip(mark + 1))))
                    },
                }),
                forall|j: int| 0 <= j < k ==> query_byte(#[trigger] query@[j]),
            decreases query@.len() - k,
        {
            let b: u8 = query[k];
            if !(0x21 <= b && b <= 0x7e && b != '#' as u8) {
                return Err(RejectReason::QueryInvalidByte);
            }
            k += 1;
        }
        let base: usize = out.len();
        let ghost held = content(*out);
        let ghost segments = views(kept@);
        let mut n: usize = 0;
        proof {
            lemma_path_text_len(segments);
            assert(held + path_text(segments.take(0)) =~= held);
        }
        while n < kept.len()
            invariant
                n <= kept@.len(),
                segments == views(kept@),
                path_text(segments).len() <= raw@.len(),
                has_room(held.len() as int, raw@.len() as int),
                content(*out) == held + path_text(segments.take(n as int)),
            decreases kept@.len() - n,
        {
            let ghost next = segments.take(n + 1);
            proof {
                assert(next.drop_last() =~= segments.take(n as int));
                lemma_take_len(segments, n + 1);
            }
            put_u8(out, '/' as u8);
            out.extend_from_slice(kept[n]);
            proof {
                assert(content(*out) =~= held + path_text(next));
            }
            n += 1;
        }
        let path_buf = out.split_off(base).freeze();
        proof {
            assert(segments.take(n as int) =~= segments);
            assert((held + path_text(segments)).take(base as int) =~= held);
            assert((held + path_text(segments)).skip(base as int) =~= path_text(segments));
        }
        if mark == raw.len() {
            return Ok((NormalizedPath { buf: path_buf }, None));
        }
        out.extend_from_slice(query);
        let query_buf = out.split_off(base).freeze();
        proof {
            assert((held + query@).take(base as int) =~= held);
            assert((held + query@).skip(base as int) =~= query@);
        }
        Ok((NormalizedPath { buf: path_buf }, Some(RawQuery { buf: query_buf })))
    }

    /// The path `/`.
    #[must_use]
    pub fn root() -> (r: NormalizedPath)
        ensures
            r@ == seq!['/' as u8],
    {
        let mut out = BytesMut::new();
        put_u8(&mut out, '/' as u8);
        let buf = out.freeze();
        assert(frozen(buf) =~= seq!['/' as u8]);
        NormalizedPath { buf }
    }

    /// The bytes of the path.
    #[must_use]
    pub fn as_bytes(&self) -> (r: &[u8])
        ensures
            r@ == self@,
    {
        bytes_of(&self.buf)
    }

    /// The length of the path.
    #[must_use]
    pub fn len(&self) -> (r: usize)
        ensures
            r == self@.len(),
    {
        self.as_bytes().len()
    }
}

proof fn lemma_take_len(segs: Seq<Seq<u8>>, n: int)
    requires
        0 <= n <= segs.len(),
    ensures
        path_text(segs.take(n)).len() <= path_text(segs).len(),
    decreases segs.len() - n,
{
    if n < segs.len() {
        lemma_take_len(segs, n + 1);
        assert(segs.take(n + 1).drop_last() =~= segs.take(n));
    } else {
        assert(segs.take(n) =~= segs);
    }
}

/// A segment of a normalized path.
pub open spec fn segment_ok(s: Seq<u8>, policy: PathPolicy) -> bool {
    &&& path_bytes_error(s, 0, policy) is None
    &&& forall|i: int| 0 <= i < s.len() ==> #[trigger] s[i] != '/' as u8
    &&& !is_dot(s)
    &&& !is_dot_dot(s)
}

/// The bytes before and behind a slash are judged apart.
pub proof fn lemma_slash_splits(p: Seq<u8>, i: int, at: int, policy: PathPolicy)
    requires
        0 <= i <= at < p.len(),
        p[at] == '/' as u8,
        path_bytes_error(p, i, policy) is None,
    ensures
        path_bytes_error(p.take(at), i, policy) is None,
        path_bytes_error(p, at + 1, policy) is None,
    decreases at - i,
{
    if i < at {
        if p[i] == '%' as u8 {
            lemma_slash_splits(p, i + 3, at, policy);
        } else {
            lemma_slash_splits(p, i + 1, at, policy);
        }
    }
}

/// What is judged from `i` on does not depend on what stands before.
pub proof fn lemma_bytes_shift(p: Seq<u8>, from: int, i: int, policy: PathPolicy)
    requires
        0 <= from,
        0 <= i,
        from + i <= p.len(),
    ensures
        path_bytes_error(p.skip(from), i, policy) == path_bytes_error(p, from + i, policy),
    decreases p.len() - from - i,
{
    let t = p.skip(from);
    if from + i < p.len() {
        assert(t[i] == p[from + i]);
        if t[i] == '%' as u8 {
            if i + 2 < t.len() {
                assert(t[i + 1] == p[from + i + 1] && t[i + 2] == p[from + i + 2]);
                lemma_bytes_shift(p, from, i + 3, policy);
            }
        } else {
            lemma_bytes_shift(p, from, i + 1, policy);
        }
    }
}

/// A valid text followed by another is judged as the other.
pub proof fn lemma_bytes_append(a: Seq<u8>, b: Seq<u8>, i: int, policy: PathPolicy)
    requires
        0 <= i <= a.len(),
        path_bytes_error(a, i, policy) is None,
    ensures
        path_bytes_error(a + b, i, policy) == path_bytes_error(b, 0, policy),
    decreases a.len() - i,
{
    let t = a + b;
    if i == a.len() {
        lemma_bytes_shift(t, i, 0, policy);
        assert(t.skip(i) =~= b);
    } else {
        assert(t[i] == a[i]);
        if a[i] == '%' as u8 {
            assert(t[i + 1] == a[i + 1] && t[i + 2] == a[i + 2]);
            lemma_bytes_append(a, b, i + 3, policy);
        } else {
            lemma_bytes_append(a, b, i + 1, policy);
        }
    }
}

/// Whether a part of a path holds valid bytes and no slash.
spec fn part_ok(s: Seq<u8>, policy: PathPolicy) -> bool {
    path_bytes_error(s, 0, policy) is None && forall|i: int|
        0 <= i < s.len() ==> #[trigger] s[i] != '/' as u8
}

proof fn lemma_split_parts(s: Seq<u8>, from: int, policy: PathPolicy)
    requires
        0 <= from <= s.len(),
        path_bytes_error(s, from, policy) is None,
    ensures
        crate::text::split_from(s, '/' as u8, from).len() > 0,
        forall|k: int|
            0 <= k < crate::text::split_from(s, '/' as u8, from).len() ==> part_ok(
                #[trigger] crate::text::split_from(s, '/' as u8, from)[k],
                policy,
            ),
    decreases s.len() - from,
{
    let slash = '/' as u8;
    lemma_find(s, slash, from);
    let at = find(s, slash, from);
    let parts = crate::text::split_from(s, slash, from);
    if at < s.len() {
        lemma_slash_splits(s, from, at, policy);
        lemma_split_parts(s, at + 1, policy);
        let tail = crate::text::split_from(s, slash, at + 1);
        assert(parts =~= seq![s.subrange(from, at)] + tail);
        lemma_bytes_shift(s.take(at), from, 0, policy);
        assert(s.take(at).skip(from) =~= s.subrange(from, at));
        assert forall|k: int| 0 <= k < parts.len() implies part_ok(#[trigger] parts[k], policy) by {
            if k > 0 {
                assert(parts[k] == tail[k - 1]);
            }
        }
    } else {
        lemma_bytes_shift(s, from, 0, policy);
    }
}

proof fn lemma_resolve_ok(segs: Seq<Seq<u8>>, i: int, kept: Seq<Seq<u8>>, policy: PathPolicy)
    requires
        0 <= i <= segs.len(),
        i == segs.len() ==> kept.len() > 0,
        forall|k: int| 0 <= k < segs.len() ==> part_ok(#[trigger] segs[k], policy),
        forall|k: int| 0 <= k < kept.len() ==> segment_ok(#[trigger] kept[k], policy),
        resolve_from(segs, i, kept) is Ok,
    ensures
        (resolve_from(segs, i, kept)->Ok_0).len() > 0,
        forall|k: int|
            0 <= k < (resolve_from(segs, i, kept)->Ok_0).len() ==> segment_ok(
                #[trigger] (resolve_from(segs, i, kept)->Ok_0)[k],
                policy,
            ),
        text_len(resolve_from(segs, i, kept)->Ok_0) <= text_len(kept) + rest_len(segs, i),
    decreases segs.len() - i,
{
    if i < segs.len() {
        let empty = Seq::<u8>::empty();
        let last = i + 1 == segs.len();
        assert(part_ok(segs[i], policy));
        assert(segment_ok(empty, policy)) by {
            assert(empty.len() == 0);
        }
        let next = if is_dot(segs[i]) {
            if last {
                kept.push(empty)
            } else {
                kept
            }
        } else if is_dot_dot(segs[i]) {
            if last {
                kept.drop_last().push(empty)
            } else {
                kept.drop_last()
            }
        } else {
            kept.push(segs[i])
        };
        assert forall|k: int| 0 <= k < next.len() implies segment_ok(#[trigger] next[k], policy) by {
            if k < kept.len() && k < next.len() - 1 {
                assert(next[k] == kept[k]);
            } else if k < kept.len() {
                if !is_dot_dot(segs[i]) || !last {
                    assert(next[k] == kept[k]);
                }
            }
        }
        assert(text_len(next) <= text_len(kept) + segs[i].len() + 1) by {
            assert(kept.push(empty).drop_last() =~= kept);
            assert(kept.push(segs[i]).drop_last() =~= kept);
            assert(kept.drop_last().push(empty).drop_last() =~= kept.drop_last());
        }
        lemma_resolve_ok(segs, i + 1, next, policy);
    }
}

/// Segments without dot segments resolve to themselves.
proof fn lemma_resolve_id(segs: Seq<Seq<u8>>, i: int, policy: PathPolicy)
    requires
        0 <= i <= segs.len(),
        forall|k: int| 0 <= k < segs.len() ==> segment_ok(#[trigger] segs[k], policy),
    ensures
        resolve_from(segs, i, segs.take(i)) == Ok::<Seq<Seq<u8>>, RejectReason>(segs),
    decreases segs.len() - i,
{
    if i < segs.len() {
        assert(segment_ok(segs[i], policy));
        assert(segs.take(i).push(segs[i]) =~= segs.take(i + 1));
        lemma_resolve_id(segs, i + 1, policy);
    } else {
        assert(segs.take(i) =~= segs);
    }
}

/// The text of segments begins with that of the first of them.
proof fn lemma_path_text_take(segs: Seq<Seq<u8>>, k: int)
    requires
        0 <= k <= segs.len(),
    ensures
        path_text(segs.take(k)).len() <= path_text(segs).len(),
        path_text(segs).take(path_text(segs.take(k)).len() as int) == path_text(segs.take(k)),
    decreases segs.len() - k,
{
    if k < segs.len() {
        lemma_path_text_take(segs, k + 1);
        assert(segs.take(k + 1).drop_last() =~= segs.take(k));
        let a = path_text(segs.take(k));
        let b = path_text(segs.take(k + 1));
        assert(b.take(a.len() as int) =~= a);
        assert(path_text(segs).take(a.len() as int) =~= path_text(segs).take(b.len() as int).take(
            a.len() as int,
        ));
    } else {
        assert(segs.take(k) =~= segs);
        assert(path_text(segs).take(path_text(segs).len() as int) =~= path_text(segs));
    }
}

/// The text of segments, without its first slash, splits into the segments.
proof fn lemma_split_text(segs: Seq<Seq<u8>>, k: int, policy: PathPolicy)
    requires
        0 <= k < segs.len(),
        forall|j: int| 0 <= j < segs.len() ==> segment_ok(#[trigger] segs[j], policy),
    ensures
        crate::text::split_from(
            path_text(segs).skip(1),
            '/' as u8,
            path_text(segs.take(k)).len() as int,
        ) == segs.skip(k),
    decreases segs.len() - k,
{
    let slash = '/' as u8;
    let text = path_text(segs);
    let s = text.skip(1);
    let before = path_text(segs.take(k));
    let from = before.len() as int;
    let next = path_text(segs.take(k + 1));
    lemma_path_text_take(segs, k);
    lemma_path_text_take(segs, k + 1);
    assert(segs.take(k + 1).drop_last() =~= segs.take(k));
    assert(next == before.push(slash) + segs[k]);
    let at = next.len() - 1;
    assert(text.take(next.len() as int) == next);
    assert(segment_ok(segs[k], policy));
    assert forall|j: int| from <= j < at implies s[j] == segs[k][j - from] by {
        assert(s[j] == text[j + 1]);
        assert(text.take(next.len() as int)[j + 1] == text[j + 1]);
        assert(next[j + 1] == segs[k][j - from]);
    }
    assert forall|j: int| from <= j < at implies s[j] != slash by {
        assert(segs[k][j - from] != slash);
    }
    assert(s.subrange(from, at) =~= segs[k]);
    if k + 1 < segs.len() {
        let third = path_text(segs.take(k + 2));
        lemma_path_text_take(segs, k + 2);
        assert(segs.take(k + 2).drop_last() =~= segs.take(k + 1));
        assert(third == next.push(slash) + segs[k + 1]);
        assert(text.take(third.len() as int)[next.len() as int] == text[next.len() as int]);
        assert(third[next.len() as int] == slash);
        assert(s[at] == slash);
        crate::text::lemma_find_is(s, slash, from, at);
        lemma_split_text(segs, k + 1, policy);
        assert(segs.skip(k) =~= seq![segs[k]] + segs.skip(k + 1));
        assert(crate::text::split_from(s, slash, from) == seq![s.subrange(from, at)]
            + crate::text::split_from(s, slash, at + 1));
    } else {
        assert(segs.take(k + 1) =~= segs);
        assert(at == s.len());
        crate::text::lemma_find_is(s, slash, from, at);
        assert(s.skip(from) =~= s.subrange(from, at));
        assert(segs.skip(k) =~= seq![segs[k]]);
    }
}

/// The text of valid segments is valid and holds no question mark.
proof fn lemma_text_valid(segs: Seq<Seq<u8>>, policy: PathPolicy)
    requires
        forall|j: int| 0 <= j < segs.len() ==> segment_ok(#[trigger] segs[j], policy),
    ensures
        path_bytes_error(path_text(segs), 0, policy) is None,
        segs.len() > 0 ==> path_text(segs).len() > 0 && path_text(segs)[0] == '/' as u8,
    decreases segs.len(),
{
    if segs.len() > 0 {
        let rest = segs.drop_last();
        assert forall|j: int| 0 <= j < rest.len() implies segment_ok(#[trigger] rest[j], policy) by {
            assert(segment_ok(segs[j], policy));
        }
        lemma_text_valid(rest, policy);
        assert(segment_ok(segs[segs.len() - 1], policy));
        let slash = seq!['/' as u8];
        let tail = slash + segs.last();
        assert(path_bytes_error(slash, 1, policy) is None);
        assert(path_bytes_error(slash, 0, policy) is None);
        lemma_bytes_append(slash, segs.last(), 0, policy);
        lemma_bytes_append(path_text(rest), tail, 0, policy);
        assert(path_text(segs) =~= path_text(rest) + tail);
    }
}

/// A valid path holds no question mark.
proof fn lemma_no_mark(p: Seq<u8>, i: int, policy: PathPolicy)
    requires
        0 <= i <= p.len(),
        path_bytes_error(p, i, policy) is None,
    ensures
        forall|j: int| i <= j < p.len() ==> #[trigger] p[j] != '?' as u8,
    decreases p.len() - i,
{
    if i < p.len() {
        if p[i] == '%' as u8 {
            lemma_no_mark(p, i + 3, policy);
        } else {
            lemma_no_mark(p, i + 1, policy);
        }
    }
}

/// A normalized path and its query, written out, read back as themselves.
pub proof fn law_normalized_path_reads_back(raw: Seq<u8>, policy: PathPolicy, max_bytes: u32)
    requires
        parse_path(raw, policy, max_bytes) is Ok,
    ensures
        ({
            let (p, q) = parse_path(raw, policy, max_bytes)->Ok_0;
            &&& parse_path(crate::canonical::target_text(p, q), policy, max_bytes) == parse_path(
                raw,
                policy,
                max_bytes,
            )
            &&& p.len() <= raw.len()
        }),
{
    let (p, q) = parse_path(raw, policy, max_bytes)->Ok_0;
    let mark = find(raw, '?' as u8, 0);
    lemma_find(raw, '?' as u8, 0);
    let path = raw.take(mark);
    let body = path.skip(1);
    let parts = split(body, '/' as u8);
    let slash = seq!['/' as u8];
    lemma_bytes_shift(path, 1, 0, policy);
    lemma_split_parts(body, 0, policy);
    lemma_split_rest_len(body, '/' as u8, 0);
    let segs = resolve_from(parts, 0, Seq::empty())->Ok_0;
    lemma_resolve_ok(parts, 0, Seq::empty(), policy);
    lemma_path_text_len(segs);
    lemma_text_valid(segs, policy);
    lemma_no_mark(p, 0, policy);
    let text = crate::canonical::target_text(p, q);
    crate::text::lemma_find_is(text, '?' as u8, 0, p.len() as int);
    assert(text.take(p.len() as int) =~= p);
    assert(segs.take(0) =~= Seq::<Seq<u8>>::empty());
    lemma_split_text(segs, 0, policy);
    assert(path_text(segs.take(0)).len() == 0);
    assert(segs.skip(0) =~= segs);
    lemma_resolve_id(segs, 0, policy);
    if let Some(query) = q {
        assert(text.skip((p.len() + 1) as int) =~= query);
    }
}

} // verus!
