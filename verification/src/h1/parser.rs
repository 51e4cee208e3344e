//! The HTTP/1 head parser.
//!
//! The parser keeps no position: a head that is not complete yet is parsed
//! again from the start when more bytes have arrived, and [`HeadScanBudget`]
//! prices that. It never copies and never changes the buffer; a parsed head
//! is spans into it.
use crate::error::RejectReason;
use crate::ext::{find_sub, raw_fields, RawFieldList};
use crate::field::{
    all_value_bytes, name_byte, name_byte_ok, ows_from, ows_to, trim, trim_bounds, value_byte,
    value_byte_ok, UnderscorePolicy,
};
use crate::hlist::{sat64, BudgetView, HeaderListBudget};
use crate::limits::{ClampedLimits, Limits};
use crate::scalar::{method_error, Method, ParseStatus, StatusCode, WireVersion};
use crate::text::{
    ascii, bytes_eq, digit, find, find_seq, index_from, is_digit, is_ows, is_upper, lemma_find,
    lemma_find_seq, lemma_find_seq_is, occurs_at, ows, upper,
};
use vstd::prelude::*;
use vstd::slice::slice_subrange;

verus! {

/// A half-open byte range of a buffer.
#[derive(Copy, Clone, Debug, PartialEq, Eq, Structural)]
pub struct Span {
    /// First byte, inclusive.
    pub start: u32,
    /// Last byte, exclusive.
    pub end: u32,
}

/// The bytes a span covers, if it lies within the buffer.
pub open spec fn span_bytes(s: Span, buf: Seq<u8>) -> Option<Seq<u8>> {
    if s.start <= s.end <= buf.len() {
        Some(buf.subrange(s.start as int, s.end as int))
    } else {
        None
    }
}

impl Span {
    /// Length in bytes.
    #[must_use]
    pub fn len(self) -> (r: usize)
        ensures
            r == if self.start <= self.end {
                self.end - self.start
            } else {
                0
            },
    {
        self.end.saturating_sub(self.start) as usize
    }

    /// Whether the span starts where it ends.
    #[must_use]
    pub fn is_empty(self) -> (r: bool)
        ensures
            r == (self.start == self.end),
    {
        self.start == self.end
    }

    /// The bytes this span covers, or `None` when it is out of range.
    #[must_use]
    pub fn of(self, buf: &[u8]) -> (r: Option<&[u8]>)
        ensures
            match r {
                Some(s) => span_bytes(self, buf@) == Some(s@),
                None => span_bytes(self, buf@) is None,
            },
    {
        let start: usize = self.start as usize;
        let end: usize = self.end as usize;
        if start <= end && end <= buf.len() {
            Some(slice_subrange(buf, start, end))
        } else {
            None
        }
    }
}

/// A span, or a refusal where it lies past what a span can hold.
fn make_span(start: usize, end: usize) -> (r: Result<Span, RejectReason>)
    requires
        start <= end,
    ensures
        match r {
            Ok(s) => end <= u32::MAX && s.start == start && s.end == end,
            Err(e) => end > u32::MAX && e == RejectReason::HeaderListTooLarge,
        },
{
    if end > u32::MAX as usize {
        return Err(RejectReason::HeaderListTooLarge);
    }
    Ok(Span { start: start as u32, end: end as u32 })
}

/// One parsed field line.
#[derive(Copy, Clone, Debug, PartialEq, Eq, Structural)]
pub struct RawField {
    /// Name bytes as received.
    pub name: Span,
    /// Value bytes, without the OWS at either end.
    pub value: Span,
    /// Whether the name holds an uppercase byte.
    pub needs_lowercase: bool,
}

/// What a [`RawHead`] holds.
pub struct HeadView {
    pub method: Span,
    pub target: Span,
    pub version: WireVersion,
    pub fields: Seq<RawField>,
}

/// A parsed request head, as spans into the caller's buffer. The target stays
/// within the crate: there is one path value, and it is the normalized one.
#[derive(Debug)]
pub struct RawHead<'a> {
    /// The method.
    pub method: Span,
    pub(crate) target: Span,
    /// The version.
    pub version: WireVersion,
    /// One entry per field line, in order.
    pub fields: RawFieldList,
    buf: &'a [u8],
}

/// The bytes of a span, or nothing where it is out of range.
pub open spec fn span_or_empty(s: Span, buf: Seq<u8>) -> Seq<u8> {
    match span_bytes(s, buf) {
        Some(b) => b,
        None => Seq::empty(),
    }
}

fn span_slice(s: Span, buf: &[u8]) -> (r: &[u8])
    ensures
        r@ == span_or_empty(s, buf@),
{
    match s.of(buf) {
        Some(b) => b,
        None => {
            let r = slice_subrange(buf, 0, 0);
            assert(r@ =~= Seq::<u8>::empty());
            r
        },
    }
}

/// The name of a field line, as received.
pub open spec fn raw_name(fields: Seq<RawField>, i: int, buf: Seq<u8>) -> Option<Seq<u8>> {
    if 0 <= i < fields.len() {
        span_bytes(fields[i].name, buf)
    } else {
        None
    }
}

/// The value of a field line, without the OWS around it.
pub open spec fn raw_value(fields: Seq<RawField>, i: int, buf: Seq<u8>) -> Option<Seq<u8>> {
    if 0 <= i < fields.len() {
        span_bytes(fields[i].value, buf)
    } else {
        None
    }
}

/// The bytes behind an optional slice.
pub open spec fn opt_view(o: Option<&[u8]>) -> Option<Seq<u8>> {
    match o {
        Some(s) => Some(s@),
        None => None,
    }
}

fn name_of<'a>(fields: &RawFieldList, i: usize, buf: &'a [u8]) -> (r: Option<&'a [u8]>)
    ensures
        opt_view(r) == raw_name(raw_fields(*fields), i as int, buf@),
{
    let list = fields.as_slice();
    if i < list.len() {
        list[i].name.of(buf)
    } else {
        None
    }
}

fn value_of<'a>(fields: &RawFieldList, i: usize, buf: &'a [u8]) -> (r: Option<&'a [u8]>)
    ensures
        opt_view(r) == raw_value(raw_fields(*fields), i as int, buf@),
{
    let list = fields.as_slice();
    if i < list.len() {
        list[i].value.of(buf)
    } else {
        None
    }
}

impl<'a> View for RawHead<'a> {
    type V = HeadView;

    closed spec fn view(&self) -> HeadView {
        HeadView {
            method: self.method,
            target: self.target,
            version: self.version,
            fields: raw_fields(self.fields),
        }
    }
}

impl<'a> RawHead<'a> {
    /// The buffer that the spans point into.
    pub closed spec fn buf_spec(&self) -> Seq<u8> {
        self.buf@
    }

    /// The field lines and the buffer that they point into.
    pub(crate) fn field_lines(&self) -> (r: (&[RawField], &'a [u8]))
        ensures
            r.0@ == self@.fields,
            r.1@ == self.buf_spec(),
    {
        (self.fields.as_slice(), self.buf)
    }

    /// The method bytes.
    #[must_use]
    pub fn method_bytes(&self) -> (r: &'a [u8])
        ensures
            r@ == span_or_empty(self@.method, self.buf_spec()),
    {
        span_slice(self.method, self.buf)
    }

    /// The target bytes. Routing goes by the normalized path, never by these.
    #[must_use]
    pub fn target_bytes(&self) -> (r: &'a [u8])
        ensures
            r@ == span_or_empty(self@.target, self.buf_spec()),
    {
        span_slice(self.target, self.buf)
    }

    /// The name of the field line at `i`, as received.
    #[must_use]
    pub fn field_name(&self, i: usize) -> (r: Option<&'a [u8]>)
        ensures
            opt_view(r) == raw_name(self@.fields, i as int, self.buf_spec()),
    {
        name_of(&self.fields, i, self.buf)
    }

    /// The value of the field line at `i`, without the OWS around it.
    #[must_use]
    pub fn field_value(&self, i: usize) -> (r: Option<&'a [u8]>)
        ensures
            opt_view(r) == raw_value(self@.fields, i as int, self.buf_spec()),
    {
        value_of(&self.fields, i, self.buf)
    }

    /// The field lines, in order.
    #[must_use]
    pub fn raw_fields(&self) -> (r: &[RawField])
        ensures
            r@ == self@.fields,
    {
        self.fields.as_slice()
    }

    /// The number of field lines.
    #[must_use]
    pub fn field_count(&self) -> (r: usize)
        ensures
            r == self@.fields.len(),
    {
        self.fields.as_slice().len()
    }

    /// The version.
    #[must_use]
    pub fn version(&self) -> (r: WireVersion)
        ensures
            r == self@.version,
    {
        self.version
    }
}

/// What a [`RawResponseHead`] holds.
pub struct ResponseHeadView {
    pub status: u16,
    pub version: WireVersion,
    pub fields: Seq<RawField>,
}

/// A parsed response head, as spans into the caller's buffer.
#[derive(Debug)]
pub struct RawResponseHead<'a> {
    /// The status code.
    pub status: StatusCode,
    /// The version.
    pub version: WireVersion,
    /// One entry per field line, in order.
    pub fields: RawFieldList,
    buf: &'a [u8],
}

impl<'a> View for RawResponseHead<'a> {
    type V = ResponseHeadView;

    closed spec fn view(&self) -> ResponseHeadView {
        ResponseHeadView {
            status: self.status@,
            version: self.version,
            fields: raw_fields(self.fields),
        }
    }
}

impl<'a> RawResponseHead<'a> {
    /// The buffer that the spans point into.
    pub closed spec fn buf_spec(&self) -> Seq<u8> {
        self.buf@
    }

    /// The field lines and the buffer that they point into.
    pub(crate) fn field_lines(&self) -> (r: (&[RawField], &'a [u8]))
        ensures
            r.0@ == self@.fields,
            r.1@ == self.buf_spec(),
    {
        (self.fields.as_slice(), self.buf)
    }

    /// The name of the field line at `i`, as received.
    #[must_use]
    pub fn field_name(&self, i: usize) -> (r: Option<&'a [u8]>)
        ensures
            opt_view(r) == raw_name(self@.fields, i as int, self.buf_spec()),
    {
        name_of(&self.fields, i, self.buf)
    }

    /// The value of the field line at `i`, without the OWS around it.
    #[must_use]
    pub fn field_value(&self, i: usize) -> (r: Option<&'a [u8]>)
        ensures
            opt_view(r) == raw_value(self@.fields, i as int, self.buf_spec()),
    {
        value_of(&self.fields, i, self.buf)
    }

    /// The field lines, in order.
    #[must_use]
    pub fn raw_fields(&self) -> (r: &[RawField])
        ensures
            r@ == self@.fields,
    {
        self.fields.as_slice()
    }

    /// The number of field lines.
    #[must_use]
    pub fn field_count(&self) -> (r: usize)
        ensures
            r == self@.fields.len(),
    {
        self.fields.as_slice().len()
    }

    /// The status code.
    #[must_use]
    pub fn status(&self) -> (r: StatusCode)
        ensures
            r@ == self@.status,
    {
        self.status
    }

    /// The version.
    #[must_use]
    pub fn version(&self) -> (r: WireVersion)
        ensures
            r == self@.version,
    {
        self.version
    }
}

/// Bounds the bytes that the parser scans for one head over all its attempts.
/// Not `Copy`: charging a copy would leave the budget itself untouched.
#[derive(Debug)]
pub struct HeadScanBudget {
    scanned: u64,
}

impl View for HeadScanBudget {
    type V = u64;

    closed spec fn view(&self) -> u64 {
        self.scanned
    }
}

impl Default for HeadScanBudget {
    fn default() -> (r: Self)
        ensures
            r@ == 0,
    {
        HeadScanBudget { scanned: 0 }
    }
}

impl Clone for HeadScanBudget {
    fn clone(&self) -> (r: Self)
        ensures
            r@ == self@,
    {
        HeadScanBudget { scanned: self.scanned }
    }
}

impl HeadScanBudget {
    /// Four mebibytes: many times the greatest head at the default limits.
    pub const MAX_BYTES: u64 = 4 * 1024 * 1024;

    /// Charges one parse attempt over a buffer of `buf_len` bytes: before each
    /// attempt. Once the limit is passed, every charge fails.
    pub fn charge(&mut self, buf_len: usize) -> (r: Result<(), RejectReason>)
        ensures
            final(self)@ == sat64(old(self)@ + buf_len),
            match r {
                Ok(()) => old(self)@ + buf_len <= HeadScanBudget::MAX_BYTES,
                Err(e) => old(self)@ + buf_len > HeadScanBudget::MAX_BYTES && e
                    == RejectReason::HeaderListTooLarge,
            },
    {
        self.scanned = self.scanned.saturating_add(buf_len as u64);
        if self.scanned > Self::MAX_BYTES {
            return Err(RejectReason::HeaderListTooLarge);
        }
        Ok(())
    }

    /// Starts over: after a complete head, never after a partial one.
    pub fn reset(&mut self)
        ensures
            final(self)@ == 0,
    {
        self.scanned = 0;
    }

    /// Bytes charged so far for the current head.
    #[must_use]
    pub fn scanned(&self) -> (r: u64)
        ensures
            r == self@,
    {
        self.scanned
    }
}

/// CR LF.
pub open spec fn crlf() -> Seq<u8> {
    seq!['\r' as u8, '\n' as u8]
}

/// CR LF CR LF: the end of a head.
pub open spec fn head_end() -> Seq<u8> {
    seq!['\r' as u8, '\n' as u8, '\r' as u8, '\n' as u8]
}

/// The most bytes of a head that is not complete yet.
pub open spec fn max_head(limits: Limits) -> int {
    limits.max_request_line_bytes + limits.max_header_list_bytes + 2
}

fn max_head_bytes(limits: &ClampedLimits) -> (r: usize)
    ensures
        r == max_head(limits@),
{
    let l = limits.get();
    l.max_request_line_bytes as usize + l.max_header_list_bytes as usize + 2
}

/// What is wrong with the CR or LF at `i`.
pub open spec fn bare_error_at(s: Seq<u8>, i: int) -> Option<RejectReason> {
    if s[i] == '\r' as u8 && !(i + 1 < s.len() && s[i + 1] == '\n' as u8) {
        Some(RejectReason::BareCr)
    } else if s[i] == '\n' as u8 && !(i > 0 && s[i - 1] == '\r' as u8) {
        Some(RejectReason::BareLf)
    } else {
        None
    }
}

/// The first CR without its LF, or LF without its CR, at or after `i`.
pub open spec fn bare_error(s: Seq<u8>, i: int) -> Option<RejectReason>
    decreases s.len() - i,
{
    if i >= s.len() {
        None
    } else if bare_error_at(s, i) is Some {
        bare_error_at(s, i)
    } else {
        bare_error(s, i + 1)
    }
}

pub proof fn lemma_bare_error(s: Seq<u8>, i: int)
    requires
        0 <= i <= s.len(),
    ensures
        bare_error(s, i) is None <==> forall|j: int|
            i <= j < s.len() ==> #[trigger] bare_error_at(s, j) is None,
    decreases s.len() - i,
{
    if i < s.len() {
        lemma_bare_error(s, i + 1);
        if bare_error(s, i) is None {
            assert forall|j: int| i <= j < s.len() implies #[trigger] bare_error_at(
                s,
                j,
            ) is None by {
                if j > i {
                }
            }
        } else if bare_error_at(s, i) is None {
            assert(exists|j: int| i + 1 <= j < s.len() && #[trigger] bare_error_at(s, j) is Some);
        }
    }
}

/// The part of a buffer that the CR and LF rule is held to: the head, or, of a
/// head that is not complete yet, everything but a CR at its very end.
pub open spec fn bare_region(buf: Seq<u8>, terminator: Option<int>) -> Seq<u8> {
    match terminator {
        Some(t) => buf.take(t + 4),
        None => if buf.len() > 0 && buf.last() == '\r' as u8 {
            buf.drop_last()
        } else {
            buf
        },
    }
}

fn check_bare_cr_lf(region: &[u8]) -> (r: Result<(), RejectReason>)
    ensures
        match r {
            Ok(()) => bare_error(region@, 0) is None,
            Err(e) => bare_error(region@, 0) == Some(e),
        },
{
    let mut i: usize = 0;
    while i < region.len()
        invariant
            i <= region@.len(),
            bare_error(region@, 0) == bare_error(region@, i as int),
        decreases region@.len() - i,
    {
        let b: u8 = region[i];
        if b == '\r' as u8 {
            if !(region.len() - i > 1 && region[i + 1] == '\n' as u8) {
                return Err(RejectReason::BareCr);
            }
        } else if b == '\n' as u8 {
            if !(i > 0 && region[i - 1] == '\r' as u8) {
                return Err(RejectReason::BareLf);
            }
        }
        i += 1;
    }
    Ok(())
}

/// Where the head ends: the first blank line, `None` while there is none, or
/// why the bytes so far are refused.
pub open spec fn terminator(buf: Seq<u8>, limits: Limits) -> Result<Option<int>, RejectReason> {
    let t = find_seq(buf, head_end(), 0);
    match bare_error(bare_region(buf, t), 0) {
        Some(e) => Err(e),
        None => if t is None && buf.len() > max_head(limits) {
            Err(RejectReason::HeaderListTooLarge)
        } else {
            Ok(t)
        },
    }
}

fn find_head_end(buf: &[u8]) -> (r: Option<usize>)
    ensures
        match r {
            Some(t) => find_seq(buf@, head_end(), 0) == Some(t as int) && t + 4 <= buf@.len()
                && occurs_at(buf@, head_end(), t as int),
            None => find_seq(buf@, head_end(), 0) is None,
        },
{
    let needle: [u8; 4] = ['\r' as u8, '\n' as u8, '\r' as u8, '\n' as u8];
    assert(needle@ =~= head_end());
    let r = find_sub(buf, needle.as_slice());
    proof {
        match r {
            Some(t) => lemma_find_seq_is(buf@, head_end(), 0, t as int),
            None => lemma_find_seq(buf@, head_end(), 0),
        }
    }
    r
}

/// The first CR LF at or after `from`, where there is one before `to`.
fn find_crlf(buf: &[u8], from: usize, to: usize) -> (r: Option<usize>)
    requires
        from <= to <= buf@.len(),
    ensures
        match r {
            Some(i) => {
                &&& find_seq(buf@, crlf(), from as int) == Some(i as int)
                &&& from <= i
                &&& i + 2 <= to
            },
            None => forall|j: int| from <= j && j + 2 <= to ==> !occurs_at(buf@, crlf(), j),
        },
{
    let needle: [u8; 2] = ['\r' as u8, '\n' as u8];
    assert(needle@ =~= crlf());
    let region = slice_subrange(buf, from, to);
    let r = find_sub(region, needle.as_slice());
    proof {
        assert forall|j: int| 0 <= j && j + 2 <= region@.len() implies occurs_at(
            region@,
            crlf(),
            j,
        ) == #[trigger] occurs_at(buf@, crlf(), from + j) by {
            assert(region@.subrange(j, j + 2) =~= buf@.subrange(from + j, from + j + 2));
        }
        match r {
            Some(i) => {
                assert(occurs_at(buf@, crlf(), from + i));
                assert forall|j: int| from <= j < from + i implies !occurs_at(buf@, crlf(), j) by {
                    assert(!occurs_at(region@, crlf(), j - from));
                    assert(occurs_at(buf@, crlf(), from + (j - from)) == occurs_at(
                        region@,
                        crlf(),
                        j - from,
                    ));
                }
                lemma_find_seq_is(buf@, crlf(), from as int, from + i);
            },
            None => {
                assert forall|j: int| from <= j && j + 2 <= to implies !occurs_at(
                    buf@,
                    crlf(),
                    j,
                ) by {
                    assert(!occurs_at(region@, crlf(), j - from));
                    assert(occurs_at(buf@, crlf(), from + (j - from)) == occurs_at(
                        region@,
                        crlf(),
                        j - from,
                    ));
                }
            },
        }
    }
    match r {
        Some(i) => Some(from + i),
        None => None,
    }
}

/// Finds the end of the head and holds the bytes so far to the CR and LF rule
/// and to the limit on an incomplete head.
fn locate_terminator(buf: &[u8], limits: &ClampedLimits) -> (r: Result<
    Option<usize>,
    RejectReason,
>)
    ensures
        match r {
            Ok(Some(t)) => {
                &&& terminator(buf@, limits@) == Ok::<Option<int>, RejectReason>(Some(t as int))
                &&& occurs_at(buf@, head_end(), t as int)
            },
            Ok(None) => terminator(buf@, limits@) == Ok::<Option<int>, RejectReason>(None),
            Err(e) => terminator(buf@, limits@) == Err::<Option<int>, RejectReason>(e),
        },
{
    let t = find_head_end(buf);
    assert(buf@.len() == buf.len());
    let region: &[u8] = match t {
        Some(t) => slice_subrange(buf, 0, t + 4),
        None => {
            if buf.len() > 0 && buf[buf.len() - 1] == '\r' as u8 {
                slice_subrange(buf, 0, buf.len() - 1)
            } else {
                buf
            }
        },
    };
    check_bare_cr_lf(region)?;
    match t {
        Some(t) => Ok(Some(t)),
        None => {
            if buf.len() > max_head_bytes(limits) {
                Err(RejectReason::HeaderListTooLarge)
            } else {
                Ok(None)
            }
        },
    }
}

/// What is wrong with where the colon of a field line stands.
pub open spec fn colon_error(line: Seq<u8>) -> Option<RejectReason> {
    let colon = find(line, ':' as u8, 0);
    if colon == line.len() {
        Some(RejectReason::RequestLineMalformed)
    } else if colon == 0 {
        Some(RejectReason::FieldNameEmpty)
    } else if is_ows(line[colon - 1]) {
        Some(RejectReason::WhitespaceBeforeColon)
    } else {
        None
    }
}

/// Whether a field line goes on with the one before it.
pub open spec fn obs_fold(line: Seq<u8>) -> bool {
    line.len() > 0 && is_ows(line[0])
}

/// The name of a field line.
pub open spec fn line_name(line: Seq<u8>) -> Seq<u8> {
    line.take(find(line, ':' as u8, 0))
}

/// What stands behind the colon of a field line.
pub open spec fn line_rest(line: Seq<u8>) -> Seq<u8> {
    line.skip(find(line, ':' as u8, 0) + 1)
}

/// What is wrong with one byte of a name as received.
pub open spec fn raw_name_byte_error(b: u8, policy: UnderscorePolicy) -> Option<RejectReason> {
    if is_upper(b) {
        None
    } else if b == '_' as u8 {
        if policy is Reject {
            Some(RejectReason::FieldNameUnderscore)
        } else {
            None
        }
    } else if !name_byte(b) {
        Some(RejectReason::FieldNameInvalidByte)
    } else {
        None
    }
}

/// What is wrong with the first bad byte at or after `i` of a name as
/// received.
pub open spec fn raw_name_error(name: Seq<u8>, policy: UnderscorePolicy, i: int) -> Option<
    RejectReason,
>
    decreases name.len() - i,
{
    if i >= name.len() {
        None
    } else if raw_name_byte_error(name[i], policy) is Some {
        raw_name_byte_error(name[i], policy)
    } else {
        raw_name_error(name, policy, i + 1)
    }
}

/// Whether a name holds an uppercase byte.
pub open spec fn has_upper(name: Seq<u8>) -> bool {
    exists|i: int| 0 <= i < name.len() && is_upper(#[trigger] name[i])
}

/// The field line that starts at `pos`, and the budget after it.
pub open spec fn field_line(
    line: Seq<u8>,
    pos: int,
    limits: Limits,
    policy: UnderscorePolicy,
    budget: BudgetView,
) -> Result<RawField, RejectReason> {
    if obs_fold(line) {
        Err(RejectReason::ObsFold)
    } else if colon_error(line) is Some {
        Err(colon_error(line)->Some_0)
    } else {
        let name = line_name(line);
        let rest = line_rest(line);
        let from = ows_from(rest, 0);
        let to = ows_to(rest, from, rest.len() as int);
        let value = rest.subrange(from, to);
        let at = pos + name.len() + 1;
        if raw_name_error(name, policy, 0) is Some {
            Err(raw_name_error(name, policy, 0)->Some_0)
        } else if !all_value_bytes(value) {
            Err(RejectReason::FieldValueInvalidByte)
        } else if name.len() + value.len() > limits.max_field_line_bytes {
            Err(RejectReason::FieldLineTooLong)
        } else {
            match budget.charge_result(name.len() as int, value.len() as int) {
                Err(e) => Err(e),
                Ok(()) => if at + to > u32::MAX {
                    Err(RejectReason::HeaderListTooLarge)
                } else {
                    Ok(
                        RawField {
                            name: Span { start: pos as u32, end: (pos + name.len()) as u32 },
                            value: Span { start: (at + from) as u32, end: (at + to) as u32 },
                            needs_lowercase: has_upper(name),
                        },
                    )
                },
            }
        }
    }
}

/// The budget after a field line.
pub open spec fn line_charged(line: Seq<u8>, budget: BudgetView) -> BudgetView {
    budget.charged(line_name(line).len() as int, trim(line_rest(line)).len() as int)
}

/// The field lines from `pos` to the end of the head at `end`.
pub open spec fn field_lines(
    buf: Seq<u8>,
    pos: int,
    end: int,
    limits: Limits,
    policy: UnderscorePolicy,
    budget: BudgetView,
) -> Result<Seq<RawField>, RejectReason>
    decreases
            (if pos < end {
                end - pos
            } else {
                0
            }),
{
    if pos >= end {
        Ok(Seq::empty())
    } else {
        match find_seq(buf, crlf(), pos) {
            None => Err(RejectReason::RequestLineMalformed),
            Some(line_end) => if line_end < pos {
                Err(RejectReason::RequestLineMalformed)
            } else {
                let line = buf.subrange(pos, line_end);
                match field_line(line, pos, limits, policy, budget) {
                    Err(e) => Err(e),
                    Ok(f) => match field_lines(
                        buf,
                        line_end + 2,
                        end,
                        limits,
                        policy,
                        line_charged(line, budget),
                    ) {
                        Err(e) => Err(e),
                        Ok(rest) => Ok(seq![f] + rest),
                    },
                }
            },
        }
    }
}

/// Reads one field line.
fn parse_field_line(
    line: &[u8],
    pos: usize,
    limits: &ClampedLimits,
    policy: UnderscorePolicy,
    budget: &mut HeaderListBudget,
) -> (r: Result<RawField, RejectReason>)
    requires
        pos + line@.len() <= usize::MAX,
        old(budget).wf(),
    ensures
        final(budget).wf(),
        r == field_line(line@, pos as int, limits@, policy, old(budget)@),
        r is Ok ==> final(budget)@ == line_charged(line@, old(budget)@),
{
    if line.len() > 0 && ows(line[0]) {
        return Err(RejectReason::ObsFold);
    }
    let colon: usize = index_from(line, ':' as u8, 0);
    if colon == line.len() {
        return Err(RejectReason::RequestLineMalformed);
    }
    if colon == 0 {
        return Err(RejectReason::FieldNameEmpty);
    }
    if ows(line[colon - 1]) {
        return Err(RejectReason::WhitespaceBeforeColon);
    }
    let name = slice_subrange(line, 0, colon);
    assert(name@ =~= line_name(line@));
    let mut needs_lowercase = false;
    let mut i: usize = 0;
    while i < name.len()
        invariant
            i <= name@.len(),
            name@ == line_name(line@),
            !obs_fold(line@),
            colon_error(line@) is None,
            budget.wf(),
            raw_name_error(name@, policy, 0) == raw_name_error(name@, policy, i as int),
            needs_lowercase == exists|j: int| 0 <= j < i && is_upper(#[trigger] name@[j]),
        decreases name@.len() - i,
    {
        let b: u8 = name[i];
        if upper(b) {
            needs_lowercase = true;
            assert(is_upper(name@[i as int]));
        } else if b == '_' as u8 {
            if let UnderscorePolicy::Reject = policy {
                return Err(RejectReason::FieldNameUnderscore);
            }
        } else if !name_byte_ok(b) {
            return Err(RejectReason::FieldNameInvalidByte);
        }
        i += 1;
    }
    assert(needs_lowercase == has_upper(name@));
    let rest = slice_subrange(line, colon + 1, line.len());
    assert(rest@ =~= line_rest(line@));
    let (from, to) = trim_bounds(rest);
    let value = slice_subrange(rest, from, to);
    let mut k: usize = 0;
    while k < value.len()
        invariant
            k <= value@.len(),
            name@ == line_name(line@),
            rest@ == line_rest(line@),
            value@ == rest@.subrange(from as int, to as int),
            from == ows_from(rest@, 0),
            to == ows_to(rest@, from as int, rest@.len() as int),
            !obs_fold(line@),
            colon_error(line@) is None,
            raw_name_error(name@, policy, 0) is None,
            budget.wf(),
            forall|j: int| 0 <= j < k ==> value_byte(#[trigger] value@[j]),
        decreases value@.len() - k,
    {
        if !value_byte_ok(value[k]) {
            return Err(RejectReason::FieldValueInvalidByte);
        }
        k += 1;
    }
    let max: usize = limits.get().max_field_line_bytes as usize;
    if name.len() + value.len() > max {
        return Err(RejectReason::FieldLineTooLong);
    }
    budget.charge(name.len(), value.len())?;
    let value_at: usize = pos + colon + 1;
    let value_span = make_span(value_at + from, value_at + to)?;
    let name_span = make_span(pos, pos + colon)?;
    Ok(RawField { name: name_span, value: value_span, needs_lowercase })
}

/// Parses the field lines from `start` to the end of the head at `end`.
fn parse_field_lines(
    buf: &[u8],
    start: usize,
    end: usize,
    limits: &ClampedLimits,
    policy: UnderscorePolicy,
) -> (r: Result<RawFieldList, RejectReason>)
    requires
        start <= end + 2,
        occurs_at(buf@, head_end(), end as int),
    ensures
        match r {
            Ok(l) => field_lines(
                buf@,
                start as int,
                end as int,
                limits@,
                policy,
                BudgetView::fresh(limits@.max_header_list_bytes, limits@.max_field_count),
            ) == Ok::<Seq<RawField>, RejectReason>(raw_fields(l)),
            Err(e) => field_lines(
                buf@,
                start as int,
                end as int,
                limits@,
                policy,
                BudgetView::fresh(limits@.max_header_list_bytes, limits@.max_field_count),
            ) == Err::<Seq<RawField>, RejectReason>(e),
        },
{
    let mut fields = RawFieldList::new();
    let mut budget = HeaderListBudget::new(limits);
    let mut pos: usize = start;
    let max_count: usize = limits.get().max_field_count as usize;
    let ghost all = field_lines(buf@, start as int, end as int, limits@, policy, budget@);
    proof {
        assert(buf@.len() == buf.len());
        lemma_terminator_is_crlf(buf@, end as int);
        if all is Ok {
            assert(raw_fields(fields) + all->Ok_0 =~= all->Ok_0);
        }
    }
    while pos < end
        invariant
            pos <= end + 2,
            end + 4 <= buf@.len() <= usize::MAX,
            occurs_at(buf@, crlf(), end as int),
            budget.wf(),
            max_count <= 1000,
            budget@.max_count == max_count,
            all == field_lines(
                buf@,
                start as int,
                end as int,
                limits@,
                policy,
                BudgetView::fresh(limits@.max_header_list_bytes, limits@.max_field_count),
            ),
            budget@.count == raw_fields(fields).len(),
            budget@.count <= max_count,
            match field_lines(buf@, pos as int, end as int, limits@, policy, budget@) {
                Err(e) => all == Err::<Seq<RawField>, RejectReason>(e),
                Ok(rest) => all == Ok::<Seq<RawField>, RejectReason>(raw_fields(fields) + rest),
            },
        decreases end + 2 - pos,
    {
        let line_end: usize = match find_crlf(buf, pos, end + 2) {
            Some(i) => i,
            None => {
                proof {
                    assert(!occurs_at(buf@, crlf(), end as int));
                }
                return Err(RejectReason::RequestLineMalformed);
            },
        };
        let line = slice_subrange(buf, pos, line_end);
        let ghost before = raw_fields(fields);
        let field = parse_field_line(line, pos, limits, policy, &mut budget)?;
        if fields.as_slice().len() == 32 {
            if max_count > 32 {
                fields.reserve(max_count - 32);
            }
        }
        fields.push(field);
        proof {
            let rest = field_lines(
                buf@,
                line_end + 2,
                end as int,
                limits@,
                policy,
                budget@,
            );
            if rest is Ok {
                assert(before + (seq![field] + rest->Ok_0) =~= raw_fields(fields) + rest->Ok_0);
            }
        }
        pos = line_end + 2;
    }
    proof {
        assert(raw_fields(fields) + Seq::<RawField>::empty() =~= raw_fields(fields));
    }
    Ok(fields)
}

proof fn lemma_terminator_is_crlf(buf: Seq<u8>, t: int)
    requires
        occurs_at(buf, head_end(), t),
    ensures
        occurs_at(buf, crlf(), t),
        occurs_at(buf, crlf(), t + 2),
{
    let h = buf.subrange(t, t + 4);
    assert(h[0] == buf[t] && h[1] == buf[t + 1] && h[2] == buf[t + 2] && h[3] == buf[t + 3]);
    assert(buf.subrange(t, t + 2) =~= crlf());
    assert(buf.subrange(t + 2, t + 4) =~= crlf());
}

/// The HTTP/1 versions, as they are written.
pub open spec fn version_of(s: Seq<u8>) -> Option<WireVersion> {
    if s == ascii("HTTP/1.1"@) {
        Some(WireVersion::Http11)
    } else if s == ascii("HTTP/1.0"@) {
        Some(WireVersion::Http10)
    } else {
        None
    }
}

fn parse_version(s: &[u8]) -> (r: Option<WireVersion>)
    ensures
        r == version_of(s@),
{
    if bytes_eq(s, "HTTP/1.1".as_bytes()) {
        Some(WireVersion::Http11)
    } else if bytes_eq(s, "HTTP/1.0".as_bytes()) {
        Some(WireVersion::Http10)
    } else {
        None
    }
}

/// The two spaces of a request line and its version. The line is `method SP
/// target SP version`, with no other SP and no HTAB.
pub open spec fn request_line(line: Seq<u8>, limits: Limits) -> Result<
    (int, int, WireVersion),
    RejectReason,
> {
    let sp = ' ' as u8;
    let first = find(line, sp, 0);
    let second = find(line, sp, first + 1);
    if find(line, '\t' as u8, 0) < line.len() || line.len() > 0 && (line[0] == sp || line.last()
        == sp) {
        Err(RejectReason::RequestLineMalformed)
    } else if first >= line.len() || second >= line.len() || find(line, sp, second + 1)
        < line.len() {
        Err(RejectReason::RequestLineMalformed)
    } else if method_error(line.take(first), limits.max_method_bytes) is Some {
        Err(method_error(line.take(first), limits.max_method_bytes)->Some_0)
    } else {
        let target = line.subrange(first + 1, second);
        match version_of(line.skip(second + 1)) {
            None => Err(RejectReason::VersionUnsupported),
            Some(version) => if find(target, '#' as u8, 0) < target.len() {
                Err(RejectReason::TargetFragment)
            } else if target.len() == 0 {
                Err(RejectReason::RequestLineMalformed)
            } else {
                Ok((first, second, version))
            },
        }
    }
}

fn parse_request_line(line: &[u8], limits: &ClampedLimits) -> (r: Result<
    (usize, usize, WireVersion),
    RejectReason,
>)
    ensures
        match r {
            Ok((a, b, v)) => {
                &&& request_line(line@, limits@) == Ok::<(int, int, WireVersion), RejectReason>(
                    (a as int, b as int, v),
                )
                &&& a < b < line@.len()
            },
            Err(e) => request_line(line@, limits@) == Err::<(int, int, WireVersion), RejectReason>(
                e,
            ),
        },
{
    let sp: u8 = ' ' as u8;
    if index_from(line, '\t' as u8, 0) < line.len() || line.len() > 0 && (line[0] == sp
        || line[line.len() - 1] == sp) {
        return Err(RejectReason::RequestLineMalformed);
    }
    let first: usize = index_from(line, sp, 0);
    if first == line.len() {
        return Err(RejectReason::RequestLineMalformed);
    }
    let second: usize = index_from(line, sp, first + 1);
    if second == line.len() {
        return Err(RejectReason::RequestLineMalformed);
    }
    if index_from(line, sp, second + 1) < line.len() {
        return Err(RejectReason::RequestLineMalformed);
    }
    let method = slice_subrange(line, 0, first);
    let target = slice_subrange(line, first + 1, second);
    let version_bytes = slice_subrange(line, second + 1, line.len());
    let _method = Method::parse(method, limits)?;
    let version = match parse_version(version_bytes) {
        Some(v) => v,
        None => {
            return Err(RejectReason::VersionUnsupported);
        },
    };
    if index_from(target, '#' as u8, 0) < target.len() {
        return Err(RejectReason::TargetFragment);
    }
    if target.len() == 0 {
        return Err(RejectReason::RequestLineMalformed);
    }
    Ok((first, second, version))
}

/// What a buffer holds as a request head, and how many bytes it takes; `None`
/// while it is not complete.
pub open spec fn request_head(buf: Seq<u8>, limits: Limits, policy: UnderscorePolicy) -> Result<
    Option<(HeadView, int)>,
    RejectReason,
> {
    match terminator(buf, limits) {
        Err(e) => Err(e),
        Ok(None) => Ok(None),
        Ok(Some(t)) => match find_seq(buf, crlf(), 0) {
            None => Err(RejectReason::RequestLineMalformed),
            Some(line_end) => if line_end + 2 > limits.max_request_line_bytes {
                Err(RejectReason::RequestLineTooLong)
            } else {
                match request_line(buf.take(line_end), limits) {
                    Err(e) => Err(e),
                    Ok((first, second, version)) => match field_lines(
                        buf,
                        line_end + 2,
                        t,
                        limits,
                        policy,
                        BudgetView::fresh(limits.max_header_list_bytes, limits.max_field_count),
                    ) {
                        Err(e) => Err(e),
                        Ok(fields) => Ok(
                            Some(
                                (
                                    HeadView {
                                        method: Span { start: 0, end: first as u32 },
                                        target: Span {
                                            start: (first + 1) as u32,
                                            end: second as u32,
                                        },
                                        version,
                                        fields,
                                    },
                                    t + 4,
                                ),
                            ),
                        ),
                    },
                }
            },
        },
    }
}

/// The status and the version of a status line: `version SP 3DIGIT [SP
/// reason]`, with no HTAB.
pub open spec fn status_line(line: Seq<u8>) -> Result<(u16, WireVersion), RejectReason> {
    let sp = find(line, ' ' as u8, 0);
    if find(line, '\t' as u8, 0) < line.len() || sp >= line.len() {
        Err(RejectReason::RequestLineMalformed)
    } else {
        match version_of(line.take(sp)) {
            None => Err(RejectReason::VersionUnsupported),
            Some(version) => {
                let rest = line.skip(sp + 1);
                if rest.len() < 3 || !is_digit(rest[0]) || !is_digit(rest[1]) || !is_digit(
                    rest[2],
                ) {
                    Err(RejectReason::RequestLineMalformed)
                } else {
                    let code = (rest[0] - '0' as u8) * 100 + (rest[1] - '0' as u8) * 10 + (rest[2]
                        - '0' as u8);
                    if !(100 <= code <= 599) || rest.len() > 3 && rest[3] != ' ' as u8 {
                        Err(RejectReason::RequestLineMalformed)
                    } else if rest.len() > 3 && !all_value_bytes(rest.skip(4)) {
                        Err(RejectReason::FieldValueInvalidByte)
                    } else {
                        Ok((code as u16, version))
                    }
                }
            },
        }
    }
}

fn parse_status_line(line: &[u8]) -> (r: Result<(StatusCode, WireVersion), RejectReason>)
    ensures
        match r {
            Ok((s, v)) => status_line(line@) == Ok::<(u16, WireVersion), RejectReason>((s@, v)),
            Err(e) => status_line(line@) == Err::<(u16, WireVersion), RejectReason>(e),
        },
{
    if index_from(line, '\t' as u8, 0) < line.len() {
        return Err(RejectReason::RequestLineMalformed);
    }
    let sp: usize = index_from(line, ' ' as u8, 0);
    if sp == line.len() {
        return Err(RejectReason::RequestLineMalformed);
    }
    let version = match parse_version(slice_subrange(line, 0, sp)) {
        Some(v) => v,
        None => {
            return Err(RejectReason::VersionUnsupported);
        },
    };
    let rest = slice_subrange(line, sp + 1, line.len());
    assert(rest@ =~= line@.skip(sp + 1));
    if rest.len() < 3 || !digit(rest[0]) || !digit(rest[1]) || !digit(rest[2]) {
        return Err(RejectReason::RequestLineMalformed);
    }
    let value: u16 = (rest[0] - '0' as u8) as u16 * 100 + (rest[1] - '0' as u8) as u16 * 10 + (
    rest[2] - '0' as u8) as u16;
    let status = match StatusCode::from_u16(value) {
        Some(s) => s,
        None => {
            return Err(RejectReason::RequestLineMalformed);
        },
    };
    if rest.len() > 3 {
        if rest[3] != ' ' as u8 {
            return Err(RejectReason::RequestLineMalformed);
        }
        let reason = slice_subrange(rest, 4, rest.len());
        assert(reason@ =~= rest@.skip(4));
        let mut i: usize = 0;
        while i < reason.len()
            invariant
                i <= reason@.len(),
                rest@.len() > 3,
                reason@ == rest@.skip(4),
                status_line(line@) == if !all_value_bytes(rest@.skip(4)) {
                    Err::<(u16, WireVersion), RejectReason>(RejectReason::FieldValueInvalidByte)
                } else {
                    Ok((status@, version))
                },
                forall|j: int| 0 <= j < i ==> value_byte(#[trigger] reason@[j]),
            decreases reason@.len() - i,
        {
            if !value_byte_ok(reason[i]) {
                return Err(RejectReason::FieldValueInvalidByte);
            }
            i += 1;
        }
    }
    Ok((status, version))
}

/// What a buffer holds as a response head, and how many bytes it takes;
/// `None` while it is not complete.
pub open spec fn response_head(buf: Seq<u8>, limits: Limits, policy: UnderscorePolicy) -> Result<
    Option<(ResponseHeadView, int)>,
    RejectReason,
> {
    match terminator(buf, limits) {
        Err(e) => Err(e),
        Ok(None) => Ok(None),
        Ok(Some(t)) => match find_seq(buf, crlf(), 0) {
            None => Err(RejectReason::RequestLineMalformed),
            Some(line_end) => if line_end + 2 > limits.max_request_line_bytes {
                Err(RejectReason::RequestLineTooLong)
            } else {
                match status_line(buf.take(line_end)) {
                    Err(e) => Err(e),
                    Ok((status, version)) => match field_lines(
                        buf,
                        line_end + 2,
                        t,
                        limits,
                        policy,
                        BudgetView::fresh(limits.max_header_list_bytes, limits.max_field_count),
                    ) {
                        Err(e) => Err(e),
                        Ok(fields) => Ok(
                            Some((ResponseHeadView { status, version, fields }, t + 4)),
                        ),
                    },
                }
            },
        },
    }
}

/// The HTTP/1 head parser: limits and a policy, and no position.
#[derive(Copy, Clone, Debug)]
pub struct H1Parser {
    limits: ClampedLimits,
    underscores: UnderscorePolicy,
}

impl H1Parser {
    /// The limits this parser holds a head to.
    pub closed spec fn limits_spec(&self) -> Limits {
        self.limits@
    }

    /// What this parser does with `_` in a name.
    pub closed spec fn policy_spec(&self) -> UnderscorePolicy {
        self.underscores
    }

    /// A parser with these limits and this underscore policy.
    #[must_use]
    pub fn new(limits: &ClampedLimits, underscores: UnderscorePolicy) -> (r: Self)
        ensures
            r.limits_spec() == limits@,
            r.policy_spec() == underscores,
    {
        H1Parser { limits: *limits, underscores }
    }

    /// Parses a request head from the buffer read so far.
    ///
    /// A complete head takes `consumed` bytes, the blank line included: the
    /// next message starts there. On a partial one the caller appends to the
    /// same buffer and calls again with all of it.
    pub fn parse_request_head<'b>(&self, buf: &'b [u8]) -> (r: Result<
        ParseStatus<RawHead<'b>>,
        RejectReason,
    >)
        ensures
            match r {
                Ok(ParseStatus::Partial) => request_head(
                    buf@,
                    self.limits_spec(),
                    self.policy_spec(),
                ) == Ok::<Option<(HeadView, int)>, RejectReason>(None),
                Ok(ParseStatus::Complete { value, consumed }) => {
                    &&& request_head(buf@, self.limits_spec(), self.policy_spec()) == Ok::<
                        Option<(HeadView, int)>,
                        RejectReason,
                    >(Some((value@, consumed as int)))
                    &&& value.buf_spec() == buf@
                    &&& consumed <= buf@.len()
                },
                Err(e) => request_head(buf@, self.limits_spec(), self.policy_spec()) == Err::<
                    Option<(HeadView, int)>,
                    RejectReason,
                >(e),
            },
    {
        let end: usize = match locate_terminator(buf, &self.limits)? {
            Some(t) => t,
            None => {
                return Ok(ParseStatus::Partial);
            },
        };
        proof {
            assert(buf@.len() == buf.len());
            lemma_terminator_is_crlf(buf@, end as int);
        }
        let first_crlf: usize = match find_crlf(buf, 0, end + 2) {
            Some(i) => i,
            None => {
                proof {
                    assert(!occurs_at(buf@, crlf(), end as int));
                }
                return Err(RejectReason::RequestLineMalformed);
            },
        };
        let max_line: usize = self.limits.get().max_request_line_bytes as usize;
        if first_crlf + 2 > max_line {
            return Err(RejectReason::RequestLineTooLong);
        }
        let line = slice_subrange(buf, 0, first_crlf);
        let (first, second, version) = parse_request_line(line, &self.limits)?;
        let method = make_span(0, first)?;
        let target = make_span(first + 1, second)?;
        let fields = parse_field_lines(buf, first_crlf + 2, end, &self.limits, self.underscores)?;
        let head = RawHead { method, target, version, fields, buf };
        Ok(ParseStatus::complete(head, end + 4, buf.len()))
    }

    /// Parses a response head from the buffer read so far, as
    /// [`H1Parser::parse_request_head`] does a request head.
    pub fn parse_response_head<'b>(&self, buf: &'b [u8]) -> (r: Result<
        ParseStatus<RawResponseHead<'b>>,
        RejectReason,
    >)
        ensures
            match r {
                Ok(ParseStatus::Partial) => response_head(
                    buf@,
                    self.limits_spec(),
                    self.policy_spec(),
                ) == Ok::<Option<(ResponseHeadView, int)>, RejectReason>(None),
                Ok(ParseStatus::Complete { value, consumed }) => {
                    &&& response_head(buf@, self.limits_spec(), self.policy_spec()) == Ok::<
                        Option<(ResponseHeadView, int)>,
                        RejectReason,
                    >(Some((value@, consumed as int)))
                    &&& value.buf_spec() == buf@
                    &&& consumed <= buf@.len()
                },
                Err(e) => response_head(buf@, self.limits_spec(), self.policy_spec()) == Err::<
                    Option<(ResponseHeadView, int)>,
                    RejectReason,
                >(e),
            },
    {
        let end: usize = match locate_terminator(buf, &self.limits)? {
            Some(t) => t,
            None => {
                return Ok(ParseStatus::Partial);
            },
        };
        proof {
            assert(buf@.len() == buf.len());
            lemma_terminator_is_crlf(buf@, end as int);
        }
        let first_crlf: usize = match find_crlf(buf, 0, end + 2) {
            Some(i) => i,
            None => {
                proof {
                    assert(!occurs_at(buf@, crlf(), end as int));
                }
                return Err(RejectReason::RequestLineMalformed);
            },
        };
        let max_line: usize = self.limits.get().max_request_line_bytes as usize;
        if first_crlf + 2 > max_line {
            return Err(RejectReason::RequestLineTooLong);
        }
        let line = slice_subrange(buf, 0, first_crlf);
        let (status, version) = parse_status_line(line)?;
        let fields = parse_field_lines(buf, first_crlf + 2, end, &self.limits, self.underscores)?;
        let head = RawResponseHead { status, version, fields, buf };
        Ok(ParseStatus::complete(head, end + 4, buf.len()))
    }
}

/// A complete head is everything up to and with the first blank line.
pub proof fn law_head_ends_at_first_blank_line(
    buf: Seq<u8>,
    limits: Limits,
    policy: UnderscorePolicy,
)
    requires
        request_head(buf, limits, policy) matches Ok(Some(_)),
    ensures
        ({
            let consumed = (request_head(buf, limits, policy)->Ok_0->Some_0).1;
            &&& 4 <= consumed <= buf.len()
            &&& occurs_at(buf, head_end(), consumed - 4)
            &&& forall|j: int| 0 <= j < consumed - 4 ==> !occurs_at(buf, head_end(), j)
        }),
{
    lemma_find_seq(buf, head_end(), 0);
}

/// The terminator of a longer buffer is the terminator of its complete part.
proof fn lemma_terminator_more(buf: Seq<u8>, more: Seq<u8>, limits: Limits)
    requires
        terminator(buf, limits) matches Ok(Some(_)),
    ensures
        terminator(buf + more, limits) == terminator(buf, limits),
{
    let t = terminator(buf, limits)->Ok_0->Some_0;
    lemma_find_seq(buf, head_end(), 0);
    lemma_find_more(buf, more, head_end(), 0);
    assert((buf + more).take(t + 4) =~= buf.take(t + 4));
}

proof fn lemma_find_more(buf: Seq<u8>, more: Seq<u8>, needle: Seq<u8>, from: int)
    requires
        0 <= from,
        needle.len() > 0,
        find_seq(buf, needle, from) is Some,
    ensures
        find_seq(buf + more, needle, from) == find_seq(buf, needle, from),
{
    let i = find_seq(buf, needle, from)->Some_0;
    lemma_find_seq(buf, needle, from);
    assert forall|j: int| from <= j <= i implies occurs_at(buf + more, needle, j) == occurs_at(
        buf,
        needle,
        j,
    ) by {
        assert((buf + more).subrange(j, j + needle.len()) =~= buf.subrange(j, j + needle.len()));
    }
    assert(occurs_at(buf + more, needle, i));
    assert forall|j: int| from <= j < i implies !occurs_at(buf + more, needle, j) by {
        assert(!occurs_at(buf, needle, j));
    }
    lemma_find_seq_is(buf + more, needle, from, i);
}

proof fn lemma_field_lines_more(
    buf: Seq<u8>,
    more: Seq<u8>,
    pos: int,
    end: int,
    limits: Limits,
    policy: UnderscorePolicy,
    budget: BudgetView,
)
    requires
        0 <= pos,
        occurs_at(buf, crlf(), end),
    ensures
        field_lines(buf + more, pos, end, limits, policy, budget) == field_lines(
            buf,
            pos,
            end,
            limits,
            policy,
            budget,
        ),
    decreases
            (if pos < end {
                end - pos
            } else {
                0
            }),
{
    if pos < end {
        lemma_find_seq(buf, crlf(), pos);
        match find_seq(buf, crlf(), pos) {
            None => {
                assert(!occurs_at(buf, crlf(), end));
            },
            Some(line_end) => {
                lemma_find_more(buf, more, crlf(), pos);
                let line = buf.subrange(pos, line_end);
                assert((buf + more).subrange(pos, line_end) =~= line);
                lemma_field_lines_more(
                    buf,
                    more,
                    line_end + 2,
                    end,
                    limits,
                    policy,
                    line_charged(line, budget),
                );
            },
        }
    }
}

/// Once the end of the head has arrived, what follows it changes nothing: the
/// outcome is that of the head alone.
pub proof fn law_request_head_ignores_what_follows(
    buf: Seq<u8>,
    more: Seq<u8>,
    limits: Limits,
    policy: UnderscorePolicy,
)
    requires
        terminator(buf, limits) matches Ok(Some(_)),
    ensures
        request_head(buf + more, limits, policy) == request_head(buf, limits, policy),
{
    lemma_first_line_more(buf, more, limits, policy);
}

/// Once the end of the head has arrived, what follows it changes nothing: the
/// outcome is that of the head alone.
pub proof fn law_response_head_ignores_what_follows(
    buf: Seq<u8>,
    more: Seq<u8>,
    limits: Limits,
    policy: UnderscorePolicy,
)
    requires
        terminator(buf, limits) matches Ok(Some(_)),
    ensures
        response_head(buf + more, limits, policy) == response_head(buf, limits, policy),
{
    lemma_first_line_more(buf, more, limits, policy);
}

proof fn lemma_first_line_more(
    buf: Seq<u8>,
    more: Seq<u8>,
    limits: Limits,
    policy: UnderscorePolicy,
)
    requires
        terminator(buf, limits) matches Ok(Some(_)),
    ensures
        terminator(buf + more, limits) == terminator(buf, limits),
        find_seq(buf, crlf(), 0) is Some,
        find_seq(buf + more, crlf(), 0) == find_seq(buf, crlf(), 0),
        ({
            let t = terminator(buf, limits)->Ok_0->Some_0;
            let line_end = find_seq(buf, crlf(), 0)->Some_0;
            let budget = BudgetView::fresh(limits.max_header_list_bytes, limits.max_field_count);
            &&& (buf + more).take(line_end) == buf.take(line_end)
            &&& field_lines(buf + more, line_end + 2, t, limits, policy, budget) == field_lines(
                buf,
                line_end + 2,
                t,
                limits,
                policy,
                budget,
            )
        }),
{
    let t = terminator(buf, limits)->Ok_0->Some_0;
    lemma_terminator_more(buf, more, limits);
    lemma_find_seq(buf, head_end(), 0);
    lemma_terminator_is_crlf(buf, t);
    lemma_find_seq(buf, crlf(), 0);
    if find_seq(buf, crlf(), 0) is None {
        assert(!occurs_at(buf, crlf(), t));
    }
    lemma_find_more(buf, more, crlf(), 0);
    let line_end = find_seq(buf, crlf(), 0)->Some_0;
    assert((buf + more).take(line_end) =~= buf.take(line_end));
    lemma_field_lines_more(
        buf,
        more,
        line_end + 2,
        t,
        limits,
        policy,
        BudgetView::fresh(limits.max_header_list_bytes, limits.max_field_count),
    );
}

proof fn lemma_prefix_terminator(buf: Seq<u8>, n: int, limits: Limits)
    requires
        terminator(buf, limits) matches Ok(Some(_)),
        0 <= n < terminator(buf, limits)->Ok_0->Some_0 + 4,
        n <= max_head(limits),
    ensures
        terminator(buf.take(n), limits) == Ok::<Option<int>, RejectReason>(None),
{
    let t = terminator(buf, limits)->Ok_0->Some_0;
    let head = buf.take(t + 4);
    let part = buf.take(n);
    lemma_find_seq(buf, head_end(), 0);
    lemma_find_seq(part, head_end(), 0);
    match find_seq(part, head_end(), 0) {
        Some(i) => {
            assert(part.subrange(i, i + 4) =~= buf.subrange(i, i + 4));
            assert(occurs_at(buf, head_end(), i));
        },
        None => {},
    }
    let region = bare_region(part, None);
    lemma_bare_error(head, 0);
    lemma_bare_error(region, 0);
    assert forall|j: int| 0 <= j < region.len() implies #[trigger] bare_error_at(
        region,
        j,
    ) is None by {
        assert(bare_error_at(head, j) is None);
        assert(region[j] == head[j]);
        if region[j] == '\r' as u8 && j + 1 == region.len() {
            // A CR at the very end of the bytes was taken off.
            assert(part.last() == part[part.len() - 1]);
            assert(head[j + 1] == '\n' as u8);
            if region.len() == part.len() {
                assert(part.last() == region[j]);
            }
        }
    }
}

/// Before its last byte has arrived, an acceptable head is partial: never
/// refused and never complete too early. This holds of every prefix within
/// the limit on an incomplete head.
pub proof fn law_request_head_prefix_is_partial(
    buf: Seq<u8>,
    n: int,
    limits: Limits,
    policy: UnderscorePolicy,
)
    requires
        request_head(buf, limits, policy) matches Ok(Some(_)),
        0 <= n < (request_head(buf, limits, policy)->Ok_0->Some_0).1,
        n <= max_head(limits),
    ensures
        request_head(buf.take(n), limits, policy) == Ok::<Option<(HeadView, int)>, RejectReason>(
            None,
        ),
{
    lemma_prefix_terminator(buf, n, limits);
}

/// Before its last byte has arrived, an acceptable head is partial: never
/// refused and never complete too early. This holds of every prefix within
/// the limit on an incomplete head.
pub proof fn law_response_head_prefix_is_partial(
    buf: Seq<u8>,
    n: int,
    limits: Limits,
    policy: UnderscorePolicy,
)
    requires
        response_head(buf, limits, policy) matches Ok(Some(_)),
        0 <= n < (response_head(buf, limits, policy)->Ok_0->Some_0).1,
        n <= max_head(limits),
    ensures
        response_head(buf.take(n), limits, policy) == Ok::<
            Option<(ResponseHeadView, int)>,
            RejectReason,
        >(None),
{
    lemma_prefix_terminator(buf, n, limits);
}

/// Whether a parsed field line lies before `end` with an acceptable name and
/// an acceptable value.
pub open spec fn raw_field_ok(
    f: RawField,
    buf: Seq<u8>,
    end: int,
    policy: UnderscorePolicy,
) -> bool {
    &&& f.name.start < f.name.end < f.value.start <= f.value.end <= end
    &&& end <= buf.len()
    &&& raw_name_error(buf.subrange(f.name.start as int, f.name.end as int), policy, 0) is None
    &&& all_value_bytes(buf.subrange(f.value.start as int, f.value.end as int))
}

proof fn lemma_field_lines_ok(
    buf: Seq<u8>,
    pos: int,
    end: int,
    limits: Limits,
    policy: UnderscorePolicy,
    budget: BudgetView,
)
    requires
        0 <= pos,
        occurs_at(buf, crlf(), end),
        field_lines(buf, pos, end, limits, policy, budget) is Ok,
        budget.count <= budget.max_count < u32::MAX,
    ensures
        ({
            let fields = field_lines(buf, pos, end, limits, policy, budget)->Ok_0;
            &&& forall|i: int|
                0 <= i < fields.len() ==> raw_field_ok(#[trigger] fields[i], buf, end, policy)
            &&& budget.count + fields.len() <= budget.max_count
        }),
    decreases
            (if pos < end {
                end - pos
            } else {
                0
            }),
{
    if pos < end {
        let fields = field_lines(buf, pos, end, limits, policy, budget)->Ok_0;
        lemma_find_seq(buf, crlf(), pos);
        let line_end = find_seq(buf, crlf(), pos)->Some_0;
        assert(line_end <= end) by {
            if line_end > end {
                assert(!occurs_at(buf, crlf(), end));
            }
        }
        let line = buf.subrange(pos, line_end);
        lemma_field_lines_ok(
            buf,
            line_end + 2,
            end,
            limits,
            policy,
            line_charged(line, budget),
        );
        let f = field_line(line, pos, limits, policy, budget)->Ok_0;
        let rest = line_rest(line);
        lemma_find(line, ':' as u8, 0);
        crate::field::lemma_ows_from(rest, 0);
        crate::field::lemma_ows_to(rest, ows_from(rest, 0), rest.len() as int);
        assert(buf.subrange(f.name.start as int, f.name.end as int) =~= line_name(line));
        assert(buf.subrange(f.value.start as int, f.value.end as int) =~= rest.subrange(
            ows_from(rest, 0),
            ows_to(rest, ows_from(rest, 0), rest.len() as int),
        ));
        let tail = field_lines(
            buf,
            line_end + 2,
            end,
            limits,
            policy,
            line_charged(line, budget),
        )->Ok_0;
        assert(fields == seq![f] + tail);
        assert forall|i: int| 0 <= i < fields.len() implies raw_field_ok(
            #[trigger] fields[i],
            buf,
            end,
            policy,
        ) by {
            if i > 0 {
                assert(fields[i] == tail[i - 1]);
            }
        }
    }
}

/// Every field line of a complete head lies within the head, has a non-empty
/// acceptable name and an acceptable value, and there are no more of them
/// than the limit allows.
pub proof fn law_request_head_fields_ok(buf: Seq<u8>, limits: Limits, policy: UnderscorePolicy)
    requires
        limits.within(Limits::ceiling_spec()),
        request_head(buf, limits, policy) matches Ok(Some(_)),
    ensures
        ({
            let (head, consumed) = request_head(buf, limits, policy)->Ok_0->Some_0;
            &&& forall|i: int|
                0 <= i < head.fields.len() ==> raw_field_ok(
                    #[trigger] head.fields[i],
                    buf,
                    consumed - 4,
                    policy,
                )
            &&& head.fields.len() <= limits.max_field_count
        }),
{
    lemma_find_seq(buf, head_end(), 0);
    lemma_terminator_is_crlf(buf, terminator(buf, limits)->Ok_0->Some_0);
    lemma_find_seq(buf, crlf(), 0);
    lemma_field_lines_ok(
        buf,
        find_seq(buf, crlf(), 0)->Some_0 + 2,
        terminator(buf, limits)->Ok_0->Some_0,
        limits,
        policy,
        BudgetView::fresh(limits.max_header_list_bytes, limits.max_field_count),
    );
}

/// Every field line of a complete head lies within the head, has a non-empty
/// acceptable name and an acceptable value, and there are no more of them
/// than the limit allows.
pub proof fn law_response_head_fields_ok(buf: Seq<u8>, limits: Limits, policy: UnderscorePolicy)
    requires
        limits.within(Limits::ceiling_spec()),
        response_head(buf, limits, policy) matches Ok(Some(_)),
    ensures
        ({
            let (head, consumed) = response_head(buf, limits, policy)->Ok_0->Some_0;
            &&& forall|i: int|
                0 <= i < head.fields.len() ==> raw_field_ok(
                    #[trigger] head.fields[i],
                    buf,
                    consumed - 4,
                    policy,
                )
            &&& head.fields.len() <= limits.max_field_count
            &&& 100 <= head.status <= 599
        }),
{
    lemma_find_seq(buf, head_end(), 0);
    lemma_terminator_is_crlf(buf, terminator(buf, limits)->Ok_0->Some_0);
    lemma_find_seq(buf, crlf(), 0);
    lemma_field_lines_ok(
        buf,
        find_seq(buf, crlf(), 0)->Some_0 + 2,
        terminator(buf, limits)->Ok_0->Some_0,
        limits,
        policy,
        BudgetView::fresh(limits.max_header_list_bytes, limits.max_field_count),
    );
}

/// Once the budget is passed, no later attempt is within it.
pub proof fn law_scan_budget_stays_passed(scanned: u64, a: int, b: int)
    requires
        0 <= a,
        0 <= b,
        scanned + a > HeadScanBudget::MAX_BYTES,
    ensures
        sat64(scanned + a) + b > HeadScanBudget::MAX_BYTES,
{
}

} // verus!
