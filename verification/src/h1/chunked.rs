//! The chunked transfer coding, decoded as it arrives.
//!
//! Unlike the head parser the decoder keeps its state between calls: a body
//! of a gigabyte is not read again on every wakeup. It never looks at body
//! bytes; it reports where they are. Trailers are validated like head fields,
//! and fields that could change how a message is understood are refused.
use crate::error::RejectReason;
use crate::ext::{content, find_any3, find_sub, has_room};
use crate::field::{canonical_name, normalize_name_into, trim, trim_ows, UnderscorePolicy};
use crate::h1::parser::{
    colon_error, crlf, line_name, line_rest, obs_fold, HeadScanBudget,
};
use crate::hlist::{sat64, BudgetView, HeaderListBudget};
use crate::known::{classify, classify_spec, law_long_name_is_unknown, KnownHeader};
use crate::limits::{ClampedLimits, Limits};
use crate::scalar::{is_tchar, tchar, WireVersion};
use crate::section::{Field, FieldSection, FieldSectionBuilder, SectionState};
use crate::text::{
    find_seq, hex_value, index_from, is_hex, is_ows, lemma_find_seq, lemma_find_seq_is, ows,
};
use bytes::BytesMut;
use vstd::prelude::*;
use vstd::slice::slice_subrange;

verus! {

/// What the decoder produced from the bytes it was given.
#[derive(Copy, Clone, Debug, PartialEq, Eq, Structural)]
pub enum ChunkedEvent {
    /// `len` bytes of body stand at `offset` of the input. The decoder has not
    /// looked at them.
    Data {
        /// Where they start.
        offset: usize,
        /// How many there are.
        len: usize,
    },
    /// More bytes are needed.
    NeedMore,
    /// The body and its trailers are complete; `consumed` bytes of the input
    /// belonged to them.
    Done {
        /// The bytes that belonged to this message.
        consumed: usize,
    },
}

/// What the decoder reads next.
#[derive(Copy, Clone, Debug, PartialEq, Eq, Structural)]
pub enum State {
    /// Hexadecimal digits of a chunk size.
    Size,
    /// Chunk extensions.
    Ext,
    /// The LF that ends the size line.
    SizeCrlf,
    /// Chunk data.
    Data,
    /// The CR LF behind chunk data.
    DataCrlf,
    /// The trailer section.
    Trailers,
    /// Nothing: the message is complete.
    Done,
}

/// Where in the grammar of chunk extensions the decoder stands.
#[derive(Copy, Clone, Debug, PartialEq, Eq, Structural)]
pub enum ExtMode {
    /// Right behind a `;`.
    AfterSemicolon,
    /// In an extension, outside any quoted string.
    TopLevel,
    /// In a quoted string.
    Quoted,
    /// In a quoted string, right behind a backslash.
    QuotedEscaped,
}

/// How one step of the decoder went.
enum Step {
    Continue,
    NeedMore,
    Done,
}

/// The state of a [`ChunkedDecoder`].
pub struct DecoderView {
    pub state: State,
    /// Bytes of the current chunk still to come.
    pub remaining: u64,
    /// Body bytes reported so far.
    pub delivered: u64,
    /// Extension bytes of the current chunk.
    pub ext_bytes: u32,
    /// Digits of the current chunk size.
    pub size_digits: u8,
    pub ext_mode: ExtMode,
    /// The trailer section under construction.
    pub section: Option<SectionState>,
    /// The finished trailer section.
    pub trailers: Option<Seq<Field>>,
    /// What the trailers cost.
    pub budget: BudgetView,
    /// Bytes searched for the ends of trailer lines.
    pub scan: u64,
    pub limits: Limits,
    pub underscores: UnderscorePolicy,
}

impl DecoderView {
    /// The state before the first byte of a body.
    pub open spec fn fresh(limits: Limits, underscores: UnderscorePolicy) -> DecoderView {
        DecoderView {
            state: State::Size,
            remaining: 0,
            delivered: 0,
            ext_bytes: 0,
            size_digits: 0,
            ext_mode: ExtMode::TopLevel,
            section: None,
            trailers: None,
            budget: BudgetView::fresh(limits.max_header_list_bytes, limits.max_field_count),
            scan: 0,
            limits,
            underscores,
        }
    }
}

/// The most hexadecimal digits of a chunk size.
const MAX_SIZE_DIGITS: u8 = 16;

/// The most bytes looked at for the end of a chunk size: more than a legal
/// one has.
const SIZE_LINE_SCAN_CAP: usize = 24;

/// The length of the longest known name.
const MAX_DENIABLE_NAME_LEN: usize = 19;

/// How far beyond the limit on a field line the end of a trailer line is
/// searched: room for the colon, the OWS and the CR LF, which that limit does
/// not count.
pub const TRAILER_SEARCH_CAP_SLACK: usize = 64;

/// Whether a field may never stand in a trailer section.
pub open spec fn trailer_denied_spec(k: KnownHeader) -> bool {
    match k {
        KnownHeader::TransferEncoding
        | KnownHeader::ContentLength
        | KnownHeader::Host
        | KnownHeader::Expect
        | KnownHeader::MaxForwards
        | KnownHeader::CacheControl
        | KnownHeader::IfMatch
        | KnownHeader::IfNoneMatch
        | KnownHeader::IfModifiedSince
        | KnownHeader::IfUnmodifiedSince
        | KnownHeader::IfRange
        | KnownHeader::Range
        | KnownHeader::Te
        | KnownHeader::Authorization
        | KnownHeader::ProxyAuthorization
        | KnownHeader::Cookie
        | KnownHeader::SetCookie
        | KnownHeader::Trailer => true,
        _ => false,
    }
}

/// Whether a field may never stand in a trailer section: a request that was
/// judged by its headers must not change them in a trailer.
#[must_use]
pub fn trailer_denied(k: KnownHeader) -> (r: bool)
    ensures
        r == trailer_denied_spec(k),
{
    match k {
        KnownHeader::TransferEncoding
        | KnownHeader::ContentLength
        | KnownHeader::Host
        | KnownHeader::Expect
        | KnownHeader::MaxForwards
        | KnownHeader::CacheControl
        | KnownHeader::IfMatch
        | KnownHeader::IfNoneMatch
        | KnownHeader::IfModifiedSince
        | KnownHeader::IfUnmodifiedSince
        | KnownHeader::IfRange
        | KnownHeader::Range
        | KnownHeader::Te
        | KnownHeader::Authorization
        | KnownHeader::ProxyAuthorization
        | KnownHeader::Cookie
        | KnownHeader::SetCookie
        | KnownHeader::Trailer => true,
        _ => false,
    }
}

/// Which known field a trailer's name is, once it is in canonical form.
fn classify_trailer_name(raw_name: &[u8], policy: UnderscorePolicy) -> (r: KnownHeader)
    requires
        !crate::field::underscore_refused(raw_name@, policy),
    ensures
        r == classify_spec(canonical_name(raw_name@)),
{
    if raw_name.len() > MAX_DENIABLE_NAME_LEN {
        proof {
            law_long_name_is_unknown(canonical_name(raw_name@));
        }
        return KnownHeader::Unknown;
    }
    let mut buf: [u8; 19] = [0;19];
    let n: usize = match normalize_name_into(raw_name, policy, &mut buf) {
        Ok(n) => n,
        Err(_) => {
            return KnownHeader::Unknown;
        },
    };
    let name = slice_subrange(buf.as_slice(), 0, n);
    assert(name@ =~= canonical_name(raw_name@));
    classify(name)
}

/// The value of a hexadecimal digit.
fn hex_digit_value(b: u8) -> (r: Option<u8>)
    ensures
        match r {
            Some(d) => is_hex(b) && d == hex_value(b) && d < 16,
            None => !is_hex(b),
        },
{
    if '0' as u8 <= b && b <= '9' as u8 {
        Some(b - '0' as u8)
    } else if 'a' as u8 <= b && b <= 'f' as u8 {
        Some(b - 'a' as u8 + 10)
    } else if 'A' as u8 <= b && b <= 'F' as u8 {
        Some(b - 'A' as u8 + 10)
    } else {
        None
    }
}

/// A byte of a chunk extension outside a quoted string, other than `;` and
/// `"`.
pub open spec fn ext_top_byte(b: u8) -> bool {
    b == '=' as u8 || is_ows(b) || tchar(b)
}

fn is_ext_top_byte(b: u8) -> (r: bool)
    ensures
        r == ext_top_byte(b),
{
    b == '=' as u8 || ows(b) || is_tchar(b)
}

/// What one byte of a size line before its extensions does.
pub open spec fn size_byte(v: DecoderView, b: u8) -> Result<DecoderView, RejectReason> {
    if b == ';' as u8 {
        if v.size_digits == 0 {
            Err(RejectReason::ChunkSizeInvalid)
        } else {
            Ok(
                DecoderView {
                    state: State::Ext,
                    ext_bytes: 1,
                    ext_mode: ExtMode::AfterSemicolon,
                    ..v
                },
            )
        }
    } else if b == '\r' as u8 {
        if v.size_digits == 0 {
            Err(RejectReason::ChunkSizeInvalid)
        } else {
            Ok(DecoderView { state: State::SizeCrlf, ..v })
        }
    } else if b == '\n' as u8 {
        Err(RejectReason::ChunkTerminatorInvalid)
    } else if !is_hex(b) {
        Err(RejectReason::ChunkSizeInvalid)
    } else if v.size_digits >= 16 || v.remaining * 16 + hex_value(b) > u64::MAX {
        Err(RejectReason::ChunkSizeOverflow)
    } else {
        Ok(
            DecoderView {
                size_digits: (v.size_digits + 1) as u8,
                remaining: (v.remaining * 16 + hex_value(b)) as u64,
                ..v
            },
        )
    }
}

/// Where one more byte of an extension leads: another place in the grammar,
/// `None` for the CR that ends the line, or a refusal.
pub open spec fn ext_next(mode: ExtMode, b: u8) -> Result<Option<ExtMode>, RejectReason> {
    match mode {
        ExtMode::AfterSemicolon => if b == '"' as u8 {
            Ok(Some(ExtMode::Quoted))
        } else if ext_top_byte(b) {
            Ok(Some(ExtMode::TopLevel))
        } else {
            Err(RejectReason::ChunkExtInvalid)
        },
        ExtMode::TopLevel => if b == '\r' as u8 {
            Ok(None)
        } else if b == ';' as u8 {
            Ok(Some(ExtMode::AfterSemicolon))
        } else if b == '"' as u8 {
            Ok(Some(ExtMode::Quoted))
        } else if ext_top_byte(b) {
            Ok(Some(ExtMode::TopLevel))
        } else {
            Err(RejectReason::ChunkExtInvalid)
        },
        ExtMode::Quoted => if b == '\r' as u8 || b == '\n' as u8 {
            Err(RejectReason::ChunkExtInvalid)
        } else if b == '\\' as u8 {
            Ok(Some(ExtMode::QuotedEscaped))
        } else if b == '"' as u8 {
            Ok(Some(ExtMode::TopLevel))
        } else {
            Ok(Some(ExtMode::Quoted))
        },
        ExtMode::QuotedEscaped => if b == '\r' as u8 || b == '\n' as u8 {
            Err(RejectReason::ChunkExtInvalid)
        } else {
            Ok(Some(ExtMode::Quoted))
        },
    }
}

fn next_ext_mode(mode: ExtMode, b: u8) -> (r: Result<Option<ExtMode>, RejectReason>)
    ensures
        r == ext_next(mode, b),
{
    match mode {
        ExtMode::AfterSemicolon => {
            if b == '"' as u8 {
                Ok(Some(ExtMode::Quoted))
            } else if is_ext_top_byte(b) {
                Ok(Some(ExtMode::TopLevel))
            } else {
                Err(RejectReason::ChunkExtInvalid)
            }
        },
        ExtMode::TopLevel => {
            if b == '\r' as u8 {
                Ok(None)
            } else if b == ';' as u8 {
                Ok(Some(ExtMode::AfterSemicolon))
            } else if b == '"' as u8 {
                Ok(Some(ExtMode::Quoted))
            } else if is_ext_top_byte(b) {
                Ok(Some(ExtMode::TopLevel))
            } else {
                Err(RejectReason::ChunkExtInvalid)
            }
        },
        ExtMode::Quoted => {
            if b == '\r' as u8 || b == '\n' as u8 {
                Err(RejectReason::ChunkExtInvalid)
            } else if b == '\\' as u8 {
                Ok(Some(ExtMode::QuotedEscaped))
            } else if b == '"' as u8 {
                Ok(Some(ExtMode::TopLevel))
            } else {
                Ok(Some(ExtMode::Quoted))
            }
        },
        ExtMode::QuotedEscaped => {
            if b == '\r' as u8 || b == '\n' as u8 {
                Err(RejectReason::ChunkExtInvalid)
            } else {
                Ok(Some(ExtMode::Quoted))
            }
        },
    }
}

/// What one byte of the extensions does. The limit counts every byte from the
/// first `;` to the CR.
pub open spec fn ext_byte(v: DecoderView, b: u8) -> Result<DecoderView, RejectReason> {
    if v.ext_bytes >= v.limits.max_chunk_ext_bytes {
        Err(RejectReason::ChunkExtTooLong)
    } else {
        let counted = DecoderView { ext_bytes: (v.ext_bytes + 1) as u32, ..v };
        match ext_next(v.ext_mode, b) {
            Err(e) => Err(e),
            Ok(None) => Ok(DecoderView { state: State::SizeCrlf, ..counted }),
            Ok(Some(mode)) => Ok(DecoderView { ext_mode: mode, ..counted }),
        }
    }
}

/// What the LF of a size line does: a chunk of size zero starts the trailers,
/// any other its data.
pub open spec fn size_line_end(v: DecoderView) -> DecoderView {
    if v.remaining == 0 {
        DecoderView {
            state: State::Trailers,
            section: Some(SectionState::fresh(v.limits)),
            budget: BudgetView::fresh(v.limits.max_header_list_bytes, v.limits.max_field_count),
            ..v
        }
    } else {
        DecoderView { state: State::Data, ext_bytes: 0, size_digits: 0, ..v }
    }
}

/// How far the end of a trailer line is searched.
pub open spec fn search_cap(limits: Limits) -> int {
    limits.max_field_line_bytes + TRAILER_SEARCH_CAP_SLACK
}

/// The part of the input that is searched for the end of a trailer line.
pub open spec fn search_window(r: Seq<u8>, limits: Limits) -> Seq<u8> {
    if r.len() <= search_cap(limits) {
        r
    } else {
        r.take(search_cap(limits))
    }
}

/// The first CR or LF of a line, as a refusal.
pub open spec fn line_bare_error(line: Seq<u8>, i: int) -> Option<RejectReason>
    decreases line.len() - i,
{
    if i >= line.len() {
        None
    } else if line[i] == '\r' as u8 {
        Some(RejectReason::BareCr)
    } else if line[i] == '\n' as u8 {
        Some(RejectReason::BareLf)
    } else {
        line_bare_error(line, i + 1)
    }
}

/// What one trailer line does.
pub open spec fn trailer_line(v: DecoderView, line: Seq<u8>) -> Result<DecoderView, RejectReason> {
    let name = line_name(line);
    let value = trim(line_rest(line));
    let section = v.section->Some_0;
    if obs_fold(line) {
        Err(RejectReason::ObsFold)
    } else if line_bare_error(line, 0) is Some {
        Err(line_bare_error(line, 0)->Some_0)
    } else if colon_error(line) is Some {
        Err(colon_error(line)->Some_0)
    } else if name.len() + value.len() > v.limits.max_field_line_bytes {
        Err(RejectReason::FieldLineTooLong)
    } else {
        match v.budget.charge_result(name.len() as int, value.len() as int) {
            Err(e) => Err(e),
            Ok(()) => match section.add_raw_error(
                name,
                v.underscores,
                value,
                WireVersion::Http11,
            ) {
                Some(e) => Err(e),
                None => if trailer_denied_spec(classify_spec(canonical_name(name))) {
                    Err(RejectReason::TrailerFieldForbidden)
                } else {
                    Ok(
                        DecoderView {
                            budget: v.budget.charged(name.len() as int, value.len() as int),
                            section: Some(
                                section.added_raw(name, v.underscores, value, WireVersion::Http11),
                            ),
                            ..v
                        },
                    )
                },
            },
        }
    }
}

/// What the bytes at the front of the input do.
pub enum Micro {
    /// They are refused.
    Fail(RejectReason),
    /// So many bytes of framing are taken.
    Go(DecoderView, int),
    /// So many bytes of body are reported.
    Give(DecoderView, int),
    /// There are not enough of them.
    Wait(DecoderView),
    /// So many bytes are taken, and the message is complete.
    End(DecoderView, int),
}

/// A refusal, or one byte of framing taken.
pub open spec fn one_byte(r: Result<DecoderView, RejectReason>) -> Micro {
    match r {
        Err(e) => Micro::Fail(e),
        Ok(v) => Micro::Go(v, 1),
    }
}

/// What the input does in the trailer section: one line, whole.
pub open spec fn trailer_micro(v: DecoderView, r: Seq<u8>) -> Micro {
    let window = search_window(r, v.limits);
    match find_seq(window, crlf(), 0) {
        None => {
            let scan = sat64(v.scan + window.len());
            if scan > HeadScanBudget::MAX_BYTES || r.len() > search_cap(v.limits) {
                Micro::Fail(RejectReason::FieldLineTooLong)
            } else {
                Micro::Wait(DecoderView { scan, ..v })
            }
        },
        Some(at) => {
            let scan = sat64(v.scan + at + 2);
            let searched = DecoderView { scan, ..v };
            if scan > HeadScanBudget::MAX_BYTES {
                Micro::Fail(RejectReason::FieldLineTooLong)
            } else if at == 0 {
                Micro::End(
                    DecoderView {
                        state: State::Done,
                        section: None,
                        trailers: Some((v.section->Some_0).fields),
                        ..searched
                    },
                    2,
                )
            } else {
                match trailer_line(searched, window.take(at)) {
                    Err(e) => Micro::Fail(e),
                    Ok(next) => Micro::Go(next, at + 2),
                }
            }
        },
    }
}

/// What the input does: the front of it, up to the next thing to say.
pub open spec fn micro(v: DecoderView, r: Seq<u8>) -> Micro {
    match v.state {
        State::Size => if r.len() == 0 {
            Micro::Wait(v)
        } else {
            one_byte(size_byte(v, r[0]))
        },
        State::Ext => if r.len() == 0 {
            Micro::Wait(v)
        } else {
            one_byte(ext_byte(v, r[0]))
        },
        State::SizeCrlf => if r.len() == 0 {
            Micro::Wait(v)
        } else if r[0] != '\n' as u8 {
            Micro::Fail(RejectReason::ChunkTerminatorInvalid)
        } else {
            Micro::Go(size_line_end(v), 1)
        },
        State::Data => {
            let n = if v.remaining <= r.len() {
                v.remaining as int
            } else {
                r.len() as int
            };
            if n == 0 {
                Micro::Wait(v)
            } else {
                Micro::Give(
                    DecoderView {
                        remaining: (v.remaining - n) as u64,
                        delivered: sat64(v.delivered + n),
                        state: if v.remaining == n {
                            State::DataCrlf
                        } else {
                            State::Data
                        },
                        ..v
                    },
                    n,
                )
            }
        },
        State::DataCrlf => if r.len() == 0 {
            Micro::Wait(v)
        } else if r[0] != '\r' as u8 {
            Micro::Fail(RejectReason::ChunkTerminatorInvalid)
        } else if r.len() == 1 {
            Micro::Wait(v)
        } else if r[1] != '\n' as u8 {
            Micro::Fail(RejectReason::ChunkTerminatorInvalid)
        } else {
            Micro::Go(DecoderView { state: State::Size, ..v }, 2)
        },
        State::Trailers => trailer_micro(v, r),
        State::Done => Micro::End(v, 0),
    }
}

/// Every step takes no more than there is, and a step over framing takes
/// something.
pub proof fn lemma_micro_bounds(v: DecoderView, r: Seq<u8>)
    ensures
        match micro(v, r) {
            Micro::Go(_, n) => 0 < n <= r.len(),
            Micro::Give(_, n) => 0 < n <= r.len(),
            Micro::End(_, n) => 0 <= n && (n <= r.len()),
            _ => true,
        },
{
    if v.state is Trailers {
        lemma_find_seq(search_window(r, v.limits), crlf(), 0);
    }
}

/// What one call does with a buffer from position `at` on: the state after
/// it, its event and the position it got to.
#[verifier::opaque]
pub open spec fn run(v: DecoderView, buf: Seq<u8>, at: int) -> Result<
    (DecoderView, ChunkedEvent, int),
    RejectReason,
>
    decreases buf.len() - at,
{
    if at < 0 || at > buf.len() {
        Ok((v, ChunkedEvent::NeedMore, at))
    } else {
        match micro(v, buf.skip(at)) {
            Micro::Fail(e) => Err(e),
            Micro::Go(next, n) => if 0 < n <= buf.len() - at {
                run(next, buf, at + n)
            } else {
                Ok((next, ChunkedEvent::NeedMore, at))
            },
            Micro::Give(next, n) => Ok(
                (next, ChunkedEvent::Data { offset: at as usize, len: n as usize }, at + n),
            ),
            Micro::Wait(next) => Ok((next, ChunkedEvent::NeedMore, at)),
            Micro::End(next, n) => Ok(
                (next, ChunkedEvent::Done { consumed: (at + n) as usize }, at + n),
            ),
        }
    }
}

/// Whether a byte ends the digits of a chunk size.
pub open spec fn ends_digits(b: u8) -> bool {
    b == ';' as u8 || b == '\r' as u8 || b == '\n' as u8
}

/// How far a refused call has got when it goes on from `at`. Digits of a size
/// and bytes of extensions are taken together, once they are all looked at: a
/// call refused in their middle has got to `from`, where they start in this
/// buffer. Everywhere else it has got to what is refused.
#[verifier::opaque]
pub open spec fn refused_at(v: DecoderView, buf: Seq<u8>, at: int, from: int) -> int
    decreases buf.len() - at,
{
    if at < 0 || at > buf.len() {
        at
    } else {
        match micro(v, buf.skip(at)) {
            Micro::Go(next, n) => if 0 < n <= buf.len() - at {
                refused_at(
                    next,
                    buf,
                    at + n,
                    if next.state == v.state && (v.state is Size || v.state is Ext) {
                        from
                    } else {
                        at + n
                    },
                )
            } else {
                at
            },
            _ => if v.state is Ext || v.state is Size && !ends_digits(buf[at]) {
                from
            } else {
                at
            },
        }
    }
}

/// What a refused call leaves alone: what was reported, and that the message
/// is not complete.
pub open spec fn kept(before: DecoderView, after: DecoderView) -> bool {
    &&& after.delivered == before.delivered
    &&& after.trailers == before.trailers
    &&& !(after.state is Done)
    &&& after.limits == before.limits
    &&& after.underscores == before.underscores
}

/// One step of a call that is refused in the end.
proof fn lemma_refused_step(v: DecoderView, buf: Seq<u8>, at: int, from: int)
    requires
        0 <= at <= buf.len(),
    ensures
        refused_at(v, buf, at, from) == match micro(v, buf.skip(at)) {
            Micro::Go(next, n) => refused_at(
                next,
                buf,
                at + n,
                if next.state == v.state && (v.state is Size || v.state is Ext) {
                    from
                } else {
                    at + n
                },
            ),
            _ => if v.state is Ext || v.state is Size && !ends_digits(buf[at]) {
                from
            } else {
                at
            },
        },
{
    reveal(refused_at);
    lemma_micro_bounds(v, buf.skip(at));
}

/// How one step relates to the whole call.
spec fn step_ok(
    before: DecoderView,
    at: int,
    r: Result<Step, RejectReason>,
    after: DecoderView,
    to: int,
    buf: Seq<u8>,
) -> bool {
    match r {
        Err(e) => run(before, buf, at) == Err::<(DecoderView, ChunkedEvent, int), RejectReason>(e)
            && kept(before, after) && to == refused_at(before, buf, at, at),
        Ok(Step::Continue) => at < to <= buf.len() && run(before, buf, at) == run(after, buf, to)
            && kept(before, after) && refused_at(before, buf, at, at) == refused_at(
            after,
            buf,
            to,
            to,
        ),
        Ok(Step::NeedMore) => at <= to <= buf.len() && run(before, buf, at) == Ok::<
            (DecoderView, ChunkedEvent, int),
            RejectReason,
        >((after, ChunkedEvent::NeedMore, to)),
        Ok(Step::Done) => at <= to <= buf.len() && run(before, buf, at) == Ok::<
            (DecoderView, ChunkedEvent, int),
            RejectReason,
        >((after, ChunkedEvent::Done { consumed: to as usize }, to)),
    }
}

/// One step of a call.
pub proof fn lemma_run_step(v: DecoderView, buf: Seq<u8>, at: int)
    requires
        0 <= at <= buf.len(),
    ensures
        run(v, buf, at) == match micro(v, buf.skip(at)) {
            Micro::Fail(e) => Err(e),
            Micro::Go(next, n) => run(next, buf, at + n),
            Micro::Give(next, n) => Ok(
                (next, ChunkedEvent::Data { offset: at as usize, len: n as usize }, at + n),
            ),
            Micro::Wait(next) => Ok((next, ChunkedEvent::NeedMore, at)),
            Micro::End(next, n) => Ok(
                (next, ChunkedEvent::Done { consumed: (at + n) as usize }, at + n),
            ),
        },
{
    reveal(run);
    lemma_micro_bounds(v, buf.skip(at));
}

/// A call in the middle of a size line goes on byte by byte.
proof fn lemma_run_byte(v: DecoderView, buf: Seq<u8>, at: int, from: int)
    requires
        v.state is Size || v.state is Ext,
        0 <= at < buf.len(),
    ensures
        run(v, buf, at) == match (if v.state is Size {
            size_byte(v, buf[at])
        } else {
            ext_byte(v, buf[at])
        }) {
            Err(e) => Err(e),
            Ok(next) => run(next, buf, at + 1),
        },
        refused_at(v, buf, at, from) == match (if v.state is Size {
            size_byte(v, buf[at])
        } else {
            ext_byte(v, buf[at])
        }) {
            Err(_) => if v.state is Ext || !ends_digits(buf[at]) {
                from
            } else {
                at
            },
            Ok(next) => refused_at(
                next,
                buf,
                at + 1,
                if next.state == v.state {
                    from
                } else {
                    at + 1
                },
            ),
        },
{
    lemma_run_step(v, buf, at);
    lemma_refused_step(v, buf, at, from);
    assert(buf.skip(at)[0] == buf[at]);
}

/// A resumable decoder for one request or response body.
#[derive(Debug)]
pub struct ChunkedDecoder {
    state: State,
    remaining: u64,
    delivered: u64,
    ext_bytes: u32,
    size_digits: u8,
    ext_mode: ExtMode,
    trailer_builder: Option<FieldSectionBuilder>,
    trailers: Option<FieldSection>,
    trailer_budget: HeaderListBudget,
    trailer_scan: u64,
    last_consumed: usize,
    limits: ClampedLimits,
    underscores: UnderscorePolicy,
}

impl ChunkedDecoder {
    /// The state, with the trailers under construction as they stand in the
    /// buffer that every call is given.
    pub closed spec fn state_in(&self, arena: Seq<u8>) -> DecoderView {
        DecoderView {
            state: self.state,
            remaining: self.remaining,
            delivered: self.delivered,
            ext_bytes: self.ext_bytes,
            size_digits: self.size_digits,
            ext_mode: self.ext_mode,
            section: match self.trailer_builder {
                Some(b) => Some(b.state(arena)),
                None => None,
            },
            trailers: match self.trailers {
                Some(t) => Some(t@),
                None => None,
            },
            budget: self.trailer_budget@,
            scan: self.trailer_scan,
            limits: self.limits@,
            underscores: self.underscores,
        }
    }

    /// Whether `arena` is a buffer that this decoder can go on with: the one
    /// that the calls before were given, grown by nothing but appending.
    pub closed spec fn wf(&self, arena: Seq<u8>) -> bool {
        &&& self.state is Trailers <==> self.trailer_builder is Some
        &&& self.state is Done <==> self.trailers is Some
        &&& self.trailer_builder matches Some(b) ==> b.wf(arena)
        &&& self.trailer_budget.wf()
    }

    /// The length that the buffer had, or has, before any trailer.
    pub closed spec fn base_in(&self, arena: Seq<u8>) -> int {
        match self.trailer_builder {
            Some(b) => b.base_spec(),
            None => arena.len() as int,
        }
    }

    /// The bytes that the last call took.
    pub closed spec fn consumed_spec(&self) -> int {
        self.last_consumed as int
    }

    /// A decoder for one body.
    #[must_use]
    pub fn new(limits: &ClampedLimits, underscores: UnderscorePolicy) -> (r: Self)
        ensures
            forall|arena: Seq<u8>| #[trigger] r.wf(arena),
            forall|arena: Seq<u8>| #[trigger]
                r.state_in(arena) == DecoderView::fresh(limits@, underscores),
            r.consumed_spec() == 0,
    {
        ChunkedDecoder {
            state: State::Size,
            remaining: 0,
            delivered: 0,
            ext_bytes: 0,
            size_digits: 0,
            ext_mode: ExtMode::TopLevel,
            trailer_builder: None,
            trailers: None,
            trailer_budget: HeaderListBudget::new(limits),
            trailer_scan: 0,
            last_consumed: 0,
            limits: *limits,
            underscores,
        }
    }

    /// Takes as much of `buf` as it can and returns one event.
    ///
    /// `buf` starts at the first byte not taken yet; whatever the event, the
    /// caller goes on [`ChunkedDecoder::consumed_this_call`] bytes further.
    /// `arena` is the same buffer on every call for one body: the trailers are
    /// built at its end and taken from there when the body is complete.
    ///
    /// After an error the body is lost, and where in its grammar the decoder
    /// stands has no meaning.
    pub fn decode(&mut self, buf: &[u8], arena: &mut BytesMut) -> (r: Result<
        ChunkedEvent,
        RejectReason,
    >)
        requires
            old(self).wf(content(*old(arena))),
            has_room(content(*old(arena)).len() as int, buf@.len() as int),
        ensures
            final(self).wf(content(*final(arena))),
            match r {
                Ok(event) => run(old(self).state_in(content(*old(arena))), buf@, 0) == Ok::<
                    (DecoderView, ChunkedEvent, int),
                    RejectReason,
                >(
                    (
                        final(self).state_in(content(*final(arena))),
                        event,
                        final(self).consumed_spec(),
                    ),
                ),
                Err(e) => {
                    &&& run(old(self).state_in(content(*old(arena))), buf@, 0) == Err::<
                        (DecoderView, ChunkedEvent, int),
                        RejectReason,
                    >(e)
                    &&& final(self).consumed_spec() == refused_at(
                        old(self).state_in(content(*old(arena))),
                        buf@,
                        0,
                        0,
                    )
                    &&& kept(
                        old(self).state_in(content(*old(arena))),
                        final(self).state_in(content(*final(arena))),
                    )
                },
            },
            final(self).consumed_spec() <= buf@.len(),
            content(*final(arena)).len() >= old(self).base_in(content(*old(arena))),
            content(*final(arena)).take(old(self).base_in(content(*old(arena)))) == content(
                *old(arena),
            ).take(old(self).base_in(content(*old(arena)))),
            !(final(self).state_in(content(*final(arena))).state is Trailers) ==> content(
                *final(arena),
            ) == content(*old(arena)).take(old(self).base_in(content(*old(arena)))),
    {
        let mut cursor: usize = 0;
        let result = self.run_steps(buf, &mut cursor, arena);
        self.last_consumed = cursor;
        result
    }

    /// The bytes that the last call took, those reported as data included.
    #[must_use]
    pub fn consumed_this_call(&self) -> (r: usize)
        ensures
            r == self.consumed_spec(),
    {
        self.last_consumed
    }

    /// Body bytes reported so far.
    #[must_use]
    pub fn delivered(&self) -> (r: u64)
        ensures
            forall|arena: Seq<u8>| r == (#[trigger] self.state_in(arena)).delivered,
    {
        self.delivered
    }

    /// Whether the body and its trailers are complete.
    #[must_use]
    pub fn is_done(&self) -> (r: bool)
        ensures
            forall|arena: Seq<u8>| r == ((#[trigger] self.state_in(arena)).state is Done),
    {
        matches!(self.state, State::Done)
    }

    /// The trailers, once the body is complete.
    #[must_use]
    pub fn trailers(&self) -> (r: Option<&FieldSection>)
        ensures
            forall|arena: Seq<u8>| match r {
                Some(t) => (#[trigger] self.state_in(arena)).trailers == Some(t@),
                None => self.state_in(arena).trailers is None,
            },
    {
        self.trailers.as_ref()
    }

    /// Whether nothing of the trailers changed.
    closed spec fn same_trailers(&self, other: &Self) -> bool {
        &&& self.trailer_builder == other.trailer_builder
        &&& self.trailers == other.trailers
        &&& self.trailer_budget == other.trailer_budget
        &&& self.trailer_scan == other.trailer_scan
        &&& self.limits == other.limits
        &&& self.underscores == other.underscores
    }

    /// Runs step after step until there is an event to report.
    fn run_steps(&mut self, buf: &[u8], cursor: &mut usize, arena: &mut BytesMut) -> (r: Result<
        ChunkedEvent,
        RejectReason,
    >)
        requires
            old(self).wf(content(*old(arena))),
            has_room(content(*old(arena)).len() as int, buf@.len() as int),
            *old(cursor) == 0,
        ensures
            final(self).wf(content(*final(arena))),
            *final(cursor) <= buf@.len(),
            match r {
                Ok(event) => run(old(self).state_in(content(*old(arena))), buf@, 0) == Ok::<
                    (DecoderView, ChunkedEvent, int),
                    RejectReason,
                >((final(self).state_in(content(*final(arena))), event, *final(cursor) as int)),
                Err(e) => {
                    &&& run(old(self).state_in(content(*old(arena))), buf@, 0) == Err::<
                        (DecoderView, ChunkedEvent, int),
                        RejectReason,
                    >(e)
                    &&& *final(cursor) == refused_at(
                        old(self).state_in(content(*old(arena))),
                        buf@,
                        0,
                        0,
                    )
                    &&& kept(
                        old(self).state_in(content(*old(arena))),
                        final(self).state_in(content(*final(arena))),
                    )
                },
            },
            content(*final(arena)).len() >= old(self).base_in(content(*old(arena))),
            content(*final(arena)).take(old(self).base_in(content(*old(arena)))) == content(
                *old(arena),
            ).take(old(self).base_in(content(*old(arena)))),
            !(final(self).state_in(content(*final(arena))).state is Trailers) ==> content(
                *final(arena),
            ) == content(*old(arena)).take(old(self).base_in(content(*old(arena)))),
    {
        let ghost a0 = content(*arena);
        let ghost v0 = self.state_in(a0);
        let ghost base = self.base_in(a0);
        proof {
            self.lemma_base(a0);
        }
        loop
            invariant
                a0 == content(*old(arena)),
                v0 == old(self).state_in(a0),
                base == old(self).base_in(a0),
                0 <= base <= a0.len(),
                self.wf(content(*arena)),
                *cursor <= buf@.len(),
                has_room(a0.len() as int, buf@.len() as int),
                content(*arena).len() <= a0.len() + *cursor,
                self.state is Done || kept(v0, self.state_in(content(*arena))),
                run(v0, buf@, 0) == run(self.state_in(content(*arena)), buf@, *cursor as int),
                refused_at(v0, buf@, 0, 0) == refused_at(
                    self.state_in(content(*arena)),
                    buf@,
                    *cursor as int,
                    *cursor as int,
                ),
                self.base_in(content(*arena)) == base,
                content(*arena).len() >= base,
                content(*arena).take(base) == a0.take(base),
                self.state is Done ==> *cursor == 0,
                !(self.state is Trailers) ==> content(*arena) == a0.take(base),
            decreases buf@.len() - *cursor,
        {
            let ghost a = content(*arena);
            match self.state {
                State::Size => match self.step_size(buf, cursor, Ghost(a))? {
                    Step::Continue => {},
                    _ => {
                        return Ok(ChunkedEvent::NeedMore);
                    },
                },
                State::Ext => match self.step_ext(buf, cursor, Ghost(a))? {
                    Step::Continue => {},
                    _ => {
                        return Ok(ChunkedEvent::NeedMore);
                    },
                },
                State::SizeCrlf => match self.step_size_crlf(buf, cursor, arena)? {
                    Step::Continue => {},
                    _ => {
                        return Ok(ChunkedEvent::NeedMore);
                    },
                },
                State::Data => {
                    return match self.step_data(buf, cursor, Ghost(a)) {
                        Some(event) => Ok(event),
                        None => Ok(ChunkedEvent::NeedMore),
                    };
                },
                State::DataCrlf => match self.step_data_crlf(buf, cursor, Ghost(a))? {
                    Step::Continue => {},
                    _ => {
                        return Ok(ChunkedEvent::NeedMore);
                    },
                },
                State::Trailers => {
                    return match self.step_trailers(buf, cursor, arena)? {
                        Step::Done => Ok(ChunkedEvent::Done { consumed: *cursor }),
                        _ => Ok(ChunkedEvent::NeedMore),
                    };
                },
                State::Done => {
                    proof {
                        lemma_run_step(self.state_in(a), buf@, 0);
                    }
                    return Ok(ChunkedEvent::Done { consumed: 0 });
                },
            }
        }
    }

    proof fn lemma_base(&self, arena: Seq<u8>)
        requires
            self.wf(arena),
        ensures
            0 <= self.base_in(arena) <= arena.len(),
            self.state is Done ==> self.base_in(arena) == arena.len(),
    {
        if let Some(b) = self.trailer_builder {
            b.lemma_base(arena);
        }
    }

    /// Takes one digit of a chunk size.
    fn accept_size_digit(&mut self, b: u8, Ghost(a): Ghost<Seq<u8>>) -> (r: Result<
        (),
        RejectReason,
    >)
        requires
            b != ';' as u8 && b != '\r' as u8 && b != '\n' as u8,
        ensures
            final(self).same_trailers(old(self)),
            final(self).state == old(self).state,
            final(self).delivered == old(self).delivered,
            match r {
                Ok(()) => size_byte(old(self).state_in(a), b) == Ok::<DecoderView, RejectReason>(
                    final(self).state_in(a),
                ),
                Err(e) => size_byte(old(self).state_in(a), b) == Err::<DecoderView, RejectReason>(
                    e,
                ),
            },
    {
        let digit: u8 = match hex_digit_value(b) {
            Some(d) => d,
            None => {
                return Err(RejectReason::ChunkSizeInvalid);
            },
        };
        if self.size_digits >= MAX_SIZE_DIGITS {
            return Err(RejectReason::ChunkSizeOverflow);
        }
        let scaled: Option<u64> = match self.remaining.checked_mul(16) {
            Some(m) => m.checked_add(digit as u64),
            None => None,
        };
        match scaled {
            Some(n) => {
                self.size_digits = self.size_digits + 1;
                self.remaining = n;
                Ok(())
            },
            None => Err(RejectReason::ChunkSizeOverflow),
        }
    }

    /// The digits of a chunk size, and what ends them.
    fn step_size(&mut self, buf: &[u8], cursor: &mut usize, Ghost(a): Ghost<Seq<u8>>) -> (r: Result<
        Step,
        RejectReason,
    >)
        requires
            old(self).state is Size,
            *old(cursor) <= buf@.len(),
            old(self).wf(a),
        ensures
            final(self).wf(a),
            final(self).same_trailers(old(self)),
            !(final(self).state is Trailers) && !(final(self).state is Done),
            *final(cursor) <= buf@.len(),
            step_ok(
                old(self).state_in(a),
                *old(cursor) as int,
                r,
                final(self).state_in(a),
                *final(cursor) as int,
                buf@,
            ),
            !(r matches Ok(Step::Done)),
    {
        let start: usize = *cursor;
        let available: usize = buf.len() - start;
        let window_len: usize = if available < SIZE_LINE_SCAN_CAP {
            available
        } else {
            SIZE_LINE_SCAN_CAP
        };
        let window = slice_subrange(buf, start, start + window_len);
        let boundary = find_any3(';' as u8, '\r' as u8, '\n' as u8, window);
        let digits_len: usize = match boundary {
            Some(i) => i,
            None => window_len,
        };
        let ghost v0 = self.state_in(a);
        let ghost d0 = self.size_digits;
        let mut i: usize = 0;
        while i < digits_len
            invariant
                i <= digits_len <= window_len,
                window_len == window@.len(),
                start + window_len <= buf@.len(),
                start == *cursor,
                window@ == buf@.subrange(start as int, start + window_len),
                forall|j: int|
                    0 <= j < digits_len ==> window@[j] != ';' as u8 && window@[j] != '\r' as u8
                        && window@[j] != '\n' as u8,
                self.state is Size,
                self.same_trailers(old(self)),
                self.wf(a),
                self.size_digits == d0 + i,
                i > 0 ==> self.size_digits <= 16,
                v0 == old(self).state_in(a),
                *old(cursor) == start,
                old(self).wf(a),
                kept(v0, self.state_in(a)),
                run(v0, buf@, start as int) == run(self.state_in(a), buf@, start + i),
                refused_at(v0, buf@, start as int, start as int) == refused_at(
                    self.state_in(a),
                    buf@,
                    start + i,
                    start as int,
                ),
            decreases digits_len - i,
        {
            proof {
                lemma_run_byte(self.state_in(a), buf@, start + i, start as int);
                assert(window@[i as int] == buf@[start + i]);
            }
            self.accept_size_digit(window[i], Ghost(a))?;
            i += 1;
        }
        *cursor = start + digits_len;
        match boundary {
            None => {
                assert(window_len == available);
                proof {
                    lemma_run_step(self.state_in(a), buf@, *cursor as int);
                }
                Ok(Step::NeedMore)
            },
            Some(at) => {
                let b: u8 = window[at];
                proof {
                    lemma_run_byte(self.state_in(a), buf@, start + at, start as int);
                    assert(window@[at as int] == buf@[start + at]);
                }
                if b == '\n' as u8 {
                    return Err(RejectReason::ChunkTerminatorInvalid);
                }
                if self.size_digits == 0 {
                    return Err(RejectReason::ChunkSizeInvalid);
                }
                if b == ';' as u8 {
                    self.ext_bytes = 1;
                    self.ext_mode = ExtMode::AfterSemicolon;
                    self.state = State::Ext;
                } else {
                    self.state = State::SizeCrlf;
                }
                *cursor = start + at + 1;
                Ok(Step::Continue)
            },
        }
    }

    /// The bytes of chunk extensions.
    fn step_ext(&mut self, buf: &[u8], cursor: &mut usize, Ghost(a): Ghost<Seq<u8>>) -> (r: Result<
        Step,
        RejectReason,
    >)
        requires
            old(self).state is Ext,
            *old(cursor) <= buf@.len(),
            old(self).wf(a),
        ensures
            final(self).wf(a),
            final(self).same_trailers(old(self)),
            !(final(self).state is Trailers) && !(final(self).state is Done),
            *final(cursor) <= buf@.len(),
            step_ok(
                old(self).state_in(a),
                *old(cursor) as int,
                r,
                final(self).state_in(a),
                *final(cursor) as int,
                buf@,
            ),
            !(r matches Ok(Step::Done)),
    {
        let max: u32 = self.limits.get().max_chunk_ext_bytes;
        let start: usize = *cursor;
        let ghost v0 = self.state_in(a);
        let mut i: usize = start;
        while i < buf.len()
            invariant
                start <= i <= buf@.len(),
                start == *cursor,
                self.state is Ext,
                self.same_trailers(old(self)),
                self.wf(a),
                max == self.limits@.max_chunk_ext_bytes,
                v0 == old(self).state_in(a),
                *old(cursor) == start,
                old(self).wf(a),
                kept(v0, self.state_in(a)),
                run(v0, buf@, start as int) == run(self.state_in(a), buf@, i as int),
                refused_at(v0, buf@, start as int, start as int) == refused_at(
                    self.state_in(a),
                    buf@,
                    i as int,
                    start as int,
                ),
            decreases buf@.len() - i,
        {
            proof {
                lemma_run_byte(self.state_in(a), buf@, i as int, start as int);
            }
            if self.ext_bytes >= max {
                return Err(RejectReason::ChunkExtTooLong);
            }
            let next = next_ext_mode(self.ext_mode, buf[i])?;
            self.ext_bytes = self.ext_bytes + 1;
            match next {
                None => {
                    self.state = State::SizeCrlf;
                    *cursor = i + 1;
                    return Ok(Step::Continue);
                },
                Some(mode) => {
                    self.ext_mode = mode;
                },
            }
            i += 1;
        }
        *cursor = i;
        proof {
            lemma_run_step(self.state_in(a), buf@, i as int);
        }
        Ok(Step::NeedMore)
    }

    /// The LF that ends the size line.
    fn step_size_crlf(&mut self, buf: &[u8], cursor: &mut usize, arena: &BytesMut) -> (r: Result<
        Step,
        RejectReason,
    >)
        requires
            old(self).state is SizeCrlf,
            *old(cursor) <= buf@.len(),
            old(self).wf(content(*arena)),
        ensures
            final(self).wf(content(*arena)),
            final(self).base_in(content(*arena)) == content(*arena).len(),
            *final(cursor) <= buf@.len(),
            !(final(self).state is Done),
            step_ok(
                old(self).state_in(content(*arena)),
                *old(cursor) as int,
                r,
                final(self).state_in(content(*arena)),
                *final(cursor) as int,
                buf@,
            ),
            !(r matches Ok(Step::Done)),
    {
        let at: usize = *cursor;
        proof {
            lemma_run_step(self.state_in(content(*arena)), buf@, at as int);
            lemma_refused_step(self.state_in(content(*arena)), buf@, at as int, at as int);
        }
        if at == buf.len() {
            return Ok(Step::NeedMore);
        }
        assert(buf@.skip(at as int)[0] == buf@[at as int]);
        if buf[at] != '\n' as u8 {
            return Err(RejectReason::ChunkTerminatorInvalid);
        }
        *cursor = at + 1;
        if self.remaining == 0 {
            self.trailer_builder = Some(FieldSectionBuilder::new(arena, &self.limits));
            self.trailer_budget = HeaderListBudget::new(&self.limits);
            self.state = State::Trailers;
        } else {
            self.ext_bytes = 0;
            self.size_digits = 0;
            self.state = State::Data;
        }
        Ok(Step::Continue)
    }

    /// The data of a chunk, as far as it is there. The bytes themselves are
    /// not read.
    fn step_data(&mut self, buf: &[u8], cursor: &mut usize, Ghost(a): Ghost<Seq<u8>>) -> (r: Option<
        ChunkedEvent,
    >)
        requires
            old(self).state is Data,
            *old(cursor) <= buf@.len(),
            old(self).wf(a),
        ensures
            final(self).wf(a),
            final(self).same_trailers(old(self)),
            *final(cursor) <= buf@.len(),
            !(r matches Some(ChunkedEvent::Done { .. })),
            run(old(self).state_in(a), buf@, *old(cursor) as int) == Ok::<
                (DecoderView, ChunkedEvent, int),
                RejectReason,
            >(
                (
                    final(self).state_in(a),
                    match r {
                        Some(e) => e,
                        None => ChunkedEvent::NeedMore,
                    },
                    *final(cursor) as int,
                ),
            ),
    {
        let at: usize = *cursor;
        let available: usize = buf.len() - at;
        let n: usize = if self.remaining <= available as u64 {
            self.remaining as usize
        } else {
            available
        };
        proof {
            lemma_run_step(self.state_in(a), buf@, at as int);
        }
        if n == 0 {
            return None;
        }
        self.remaining = self.remaining - n as u64;
        self.delivered = self.delivered.saturating_add(n as u64);
        *cursor = at + n;
        if self.remaining == 0 {
            self.state = State::DataCrlf;
        }
        Some(ChunkedEvent::Data { offset: at, len: n })
    }

    /// The CR LF behind chunk data: both bytes or none are taken.
    fn step_data_crlf(
        &mut self,
        buf: &[u8],
        cursor: &mut usize,
        Ghost(a): Ghost<Seq<u8>>,
    ) -> (r: Result<Step, RejectReason>)
        requires
            old(self).state is DataCrlf,
            *old(cursor) <= buf@.len(),
            old(self).wf(a),
        ensures
            final(self).wf(a),
            final(self).same_trailers(old(self)),
            !(final(self).state is Trailers) && !(final(self).state is Done),
            *final(cursor) <= buf@.len(),
            step_ok(
                old(self).state_in(a),
                *old(cursor) as int,
                r,
                final(self).state_in(a),
                *final(cursor) as int,
                buf@,
            ),
            !(r matches Ok(Step::Done)),
    {
        let at: usize = *cursor;
        let ghost rest = buf@.skip(at as int);
        proof {
            lemma_run_step(self.state_in(a), buf@, at as int);
            lemma_refused_step(self.state_in(a), buf@, at as int, at as int);
        }
        if at == buf.len() {
            assert(rest.len() == 0);
            return Ok(Step::NeedMore);
        }
        assert(rest[0] == buf@[at as int]);
        if buf[at] != '\r' as u8 {
            return Err(RejectReason::ChunkTerminatorInvalid);
        }
        if buf.len() - at == 1 {
            assert(rest.len() == 1);
            return Ok(Step::NeedMore);
        }
        assert(rest[1] == buf@[at + 1]);
        if buf[at + 1] != '\n' as u8 {
            return Err(RejectReason::ChunkTerminatorInvalid);
        }
        *cursor = at + 2;
        self.state = State::Size;
        Ok(Step::Continue)
    }

    /// The lines of the trailer section, each once it is whole.
    fn step_trailers(&mut self, buf: &[u8], cursor: &mut usize, arena: &mut BytesMut) -> (r: Result<
        Step,
        RejectReason,
    >)
        requires
            old(self).state is Trailers,
            *old(cursor) <= buf@.len(),
            old(self).wf(content(*old(arena))),
            has_room(content(*old(arena)).len() as int, buf@.len() - *old(cursor)),
        ensures
            final(self).wf(content(*final(arena))),
            *final(cursor) <= buf@.len(),
            step_ok(
                old(self).state_in(content(*old(arena))),
                *old(cursor) as int,
                r,
                final(self).state_in(content(*final(arena))),
                *final(cursor) as int,
                buf@,
            ),
            !(r matches Ok(Step::Continue)),
            !(r matches Ok(Step::Done)) ==> final(self).state is Trailers,
            match r {
                Ok(Step::Done) => content(*final(arena)) == content(*old(arena)).take(
                    old(self).base_in(content(*old(arena))),
                ),
                _ => content(*old(arena)).is_prefix_of(content(*final(arena))),
            },
    {
        let ghost a0 = content(*arena);
        let ghost v0 = self.state_in(a0);
        let ghost base = self.base_in(a0);
        proof {
            self.lemma_base(a0);
        }
        let max_line: usize = self.limits.get().max_field_line_bytes as usize;
        let cap: usize = max_line + TRAILER_SEARCH_CAP_SLACK;
        loop
            invariant
                self.state is Trailers,
                max_line == self.limits@.max_field_line_bytes,
                cap == search_cap(self.limits@),
                self.wf(content(*arena)),
                *old(cursor) <= *cursor <= buf@.len(),
                a0 == content(*old(arena)),
                v0 == old(self).state_in(a0),
                base == old(self).base_in(a0),
                0 <= base <= a0.len(),
                self.base_in(content(*arena)) == base,
                a0.is_prefix_of(content(*arena)),
                content(*arena).len() <= a0.len() + (*cursor - *old(cursor)),
                has_room(a0.len() as int, buf@.len() - *old(cursor)),
                kept(v0, self.state_in(content(*arena))),
                run(v0, buf@, *old(cursor) as int) == run(
                    self.state_in(content(*arena)),
                    buf@,
                    *cursor as int,
                ),
                refused_at(v0, buf@, *old(cursor) as int, *old(cursor) as int) == refused_at(
                    self.state_in(content(*arena)),
                    buf@,
                    *cursor as int,
                    *cursor as int,
                ),
            decreases buf@.len() - *cursor,
        {
            let at: usize = *cursor;
            let region = slice_subrange(buf, at, buf.len());
            let ghost a1 = content(*arena);
            let ghost v1 = self.state_in(a1);
            assert(region@ =~= buf@.skip(at as int));
            proof {
                lemma_run_step(v1, buf@, at as int);
                lemma_refused_step(v1, buf@, at as int, at as int);
            }
            let window: &[u8] = if region.len() <= cap {
                region
            } else {
                slice_subrange(region, 0, cap)
            };
            assert(window@ =~= search_window(region@, self.limits@));
            let needle: [u8; 2] = ['\r' as u8, '\n' as u8];
            assert(needle@ =~= crlf());
            let found = find_sub(window, needle.as_slice());
            proof {
                match found {
                    Some(rel) => lemma_find_seq_is(window@, crlf(), 0, rel as int),
                    None => lemma_find_seq(window@, crlf(), 0),
                }
            }
            let rel: usize = match found {
                Some(rel) => rel,
                None => {
                    self.trailer_scan = self.trailer_scan.saturating_add(window.len() as u64);
                    if self.trailer_scan > HeadScanBudget::MAX_BYTES {
                        return Err(RejectReason::FieldLineTooLong);
                    }
                    if region.len() > cap {
                        return Err(RejectReason::FieldLineTooLong);
                    }
                    return Ok(Step::NeedMore);
                },
            };
            assert(window@.len() == window.len());
            self.trailer_scan = self.trailer_scan.saturating_add((rel + 2) as u64);
            if self.trailer_scan > HeadScanBudget::MAX_BYTES {
                return Err(RejectReason::FieldLineTooLong);
            }
            let line = slice_subrange(window, 0, rel);
            if line.len() == 0 {
                match self.trailer_builder.take() {
                    None => {
                        return Err(RejectReason::ChunkTerminatorInvalid);
                    },
                    Some(builder) => {
                        self.trailers = Some(builder.finish(arena));
                    },
                }
                self.state = State::Done;
                *cursor = at + 2;
                proof {
                    assert(content(*arena) =~= a0.take(base));
                }
                return Ok(Step::Done);
            }
            self.accept_trailer_line(line, arena)?;
            *cursor = at + rel + 2;
        }
    }

    /// Takes one trailer line, without its CR LF.
    fn accept_trailer_line(&mut self, line: &[u8], arena: &mut BytesMut) -> (r: Result<
        (),
        RejectReason,
    >)
        requires
            old(self).state is Trailers,
            old(self).wf(content(*old(arena))),
            has_room(content(*old(arena)).len() as int, line@.len() as int),
        ensures
            final(self).wf(content(*final(arena))),
            final(self).state is Trailers,
            final(self).limits == old(self).limits,
            kept(
                old(self).state_in(content(*old(arena))),
                final(self).state_in(content(*final(arena))),
            ),
            final(self).base_in(content(*final(arena))) == old(self).base_in(
                content(*old(arena)),
            ),
            content(*old(arena)).is_prefix_of(content(*final(arena))),
            content(*final(arena)).len() <= content(*old(arena)).len() + line@.len(),
            match r {
                Ok(()) => trailer_line(old(self).state_in(content(*old(arena))), line@) == Ok::<
                    DecoderView,
                    RejectReason,
                >(final(self).state_in(content(*final(arena)))),
                Err(e) => trailer_line(old(self).state_in(content(*old(arena))), line@) == Err::<
                    DecoderView,
                    RejectReason,
                >(e),
            },
    {
        if line.len() > 0 && ows(line[0]) {
            return Err(RejectReason::ObsFold);
        }
        check_line_bare(line)?;
        let colon: usize = index_from(line, ':' as u8, 0);
        if colon == line.len() {
            return Err(RejectReason::RequestLineMalformed);
        }
        if colon == 0 {
            return Err(RejectReason::FieldNameEmpty);
        }
        if ows(line[colon - 1]) {
            return Err(RejectReason::WhitespaceBeforeColon);
        }
        let name = slice_subrange(line, 0, colon);
        let rest = slice_subrange(line, colon + 1, line.len());
        assert(name@ =~= line_name(line@));
        assert(rest@ =~= line_rest(line@));
        let value = trim_ows(rest);
        proof {
            crate::field::lemma_ows_from(rest@, 0);
            crate::field::lemma_ows_to(
                rest@,
                crate::field::ows_from(rest@, 0),
                rest@.len() as int,
            );
        }
        let max_line: usize = self.limits.get().max_field_line_bytes as usize;
        if name.len() + value.len() > max_line {
            return Err(RejectReason::FieldLineTooLong);
        }
        self.trailer_budget.charge(name.len(), value.len())?;
        let ghost a0 = content(*arena);
        match self.trailer_builder.take() {
            None => {
                return Err(RejectReason::ChunkTerminatorInvalid);
            },
            Some(mut builder) => {
                let pushed = builder.push_normalized(
                    arena,
                    name,
                    self.underscores,
                    value,
                    WireVersion::Http11,
                );
                self.trailer_builder = Some(builder);
                proof {
                    assert(a0.is_prefix_of(content(*arena)));
                }
                pushed?;
            },
        }
        if trailer_denied(classify_trailer_name(name, self.underscores)) {
            return Err(RejectReason::TrailerFieldForbidden);
        }
        Ok(())
    }
}

/// Refuses the first CR or LF of a line.
fn check_line_bare(line: &[u8]) -> (r: Result<(), RejectReason>)
    ensures
        match r {
            Ok(()) => line_bare_error(line@, 0) is None,
            Err(e) => line_bare_error(line@, 0) == Some(e),
        },
{
    let mut i: usize = 0;
    while i < line.len()
        invariant
            i <= line@.len(),
            line_bare_error(line@, 0) == line_bare_error(line@, i as int),
        decreases line@.len() - i,
    {
        if line[i] == '\r' as u8 {
            return Err(RejectReason::BareCr);
        }
        if line[i] == '\n' as u8 {
            return Err(RejectReason::BareLf);
        }
        i += 1;
    }
    Ok(())
}

/// What comes of decoding a buffer call after call, until more bytes are
/// needed or the message is complete.
pub struct Drained {
    pub view: DecoderView,
    /// The body bytes reported, in order.
    pub body: Seq<u8>,
    /// The bytes taken.
    pub taken: int,
    /// Whether the message is complete.
    pub done: bool,
}

/// An outcome that so many bytes and this body precede.
pub open spec fn ahead(taken: int, body: Seq<u8>, rest: Result<Drained, RejectReason>) -> Result<
    Drained,
    RejectReason,
> {
    match rest {
        Err(e) => Err(e),
        Ok(d) => Ok(Drained { body: body + d.body, taken: taken + d.taken, ..d }),
    }
}

/// What comes of decoding `r` call after call.
#[verifier::opaque]
pub open spec fn drain(v: DecoderView, r: Seq<u8>) -> Result<Drained, RejectReason>
    decreases r.len(),
{
    match micro(v, r) {
        Micro::Fail(e) => Err(e),
        Micro::Go(next, n) => if 0 < n <= r.len() {
            ahead(n, Seq::empty(), drain(next, r.skip(n)))
        } else {
            Ok(Drained { view: next, body: Seq::empty(), taken: 0, done: false })
        },
        Micro::Give(next, n) => if 0 < n <= r.len() {
            ahead(n, r.take(n), drain(next, r.skip(n)))
        } else {
            Ok(Drained { view: next, body: Seq::empty(), taken: 0, done: false })
        },
        Micro::Wait(next) => Ok(
            Drained { view: next, body: Seq::empty(), taken: 0, done: false },
        ),
        Micro::End(next, n) => Ok(
            Drained { view: next, body: Seq::empty(), taken: n, done: true },
        ),
    }
}

/// One step of decoding call after call.
pub proof fn lemma_drain_step(v: DecoderView, r: Seq<u8>)
    ensures
        drain(v, r) == match micro(v, r) {
            Micro::Fail(e) => Err(e),
            Micro::Go(next, n) => ahead(n, Seq::empty(), drain(next, r.skip(n))),
            Micro::Give(next, n) => ahead(n, r.take(n), drain(next, r.skip(n))),
            Micro::Wait(next) => Ok(
                Drained { view: next, body: Seq::empty(), taken: 0, done: false },
            ),
            Micro::End(next, n) => Ok(
                Drained { view: next, body: Seq::empty(), taken: n, done: true },
            ),
        },
{
    reveal(drain);
    lemma_micro_bounds(v, r);
}

/// What follows an event of a call.
pub open spec fn after_event(
    buf: Seq<u8>,
    outcome: Result<(DecoderView, ChunkedEvent, int), RejectReason>,
) -> Result<Drained, RejectReason> {
    match outcome {
        Err(e) => Err(e),
        Ok((next, ChunkedEvent::Data { offset, len }, to)) => ahead(
            to,
            buf.subrange(offset as int, offset + len),
            drain(next, buf.skip(to)),
        ),
        Ok((next, ChunkedEvent::NeedMore, to)) => Ok(
            Drained { view: next, body: Seq::empty(), taken: to, done: false },
        ),
        Ok((next, ChunkedEvent::Done { consumed }, to)) => Ok(
            Drained { view: next, body: Seq::empty(), taken: to, done: true },
        ),
    }
}

proof fn lemma_run_drain(v: DecoderView, buf: Seq<u8>, at: int)
    requires
        0 <= at <= buf.len() <= usize::MAX,
    ensures
        ahead(at, Seq::empty(), drain(v, buf.skip(at))) == after_event(buf, run(v, buf, at)),
    decreases buf.len() - at,
{
    let r = buf.skip(at);
    lemma_run_step(v, buf, at);
    lemma_drain_step(v, r);
    lemma_micro_bounds(v, r);
    let none = Seq::<u8>::empty();
    match micro(v, r) {
        Micro::Go(next, n) => {
            lemma_run_drain(next, buf, at + n);
            assert(r.skip(n) =~= buf.skip(at + n));
            if let Ok(d) = drain(next, buf.skip(at + n)) {
                assert(none + (none + d.body) =~= none + d.body);
            }
        },
        Micro::Give(next, n) => {
            assert(r.skip(n) =~= buf.skip(at + n));
            assert(r.take(n) =~= buf.subrange(at, at + n));
            if let Ok(d) = drain(next, buf.skip(at + n)) {
                assert(none + (r.take(n) + d.body) =~= r.take(n) + d.body);
            }
        },
        Micro::Wait(next) => {
            assert(none + none =~= none);
        },
        Micro::End(next, n) => {
            assert(none + none =~= none);
        },
        Micro::Fail(e) => {},
    }
}

/// Decoding call after call is the first call, then decoding on from where it
/// got to.
pub proof fn law_drain_is_call_after_call(v: DecoderView, buf: Seq<u8>)
    requires
        buf.len() <= usize::MAX,
    ensures
        drain(v, buf) == after_event(buf, run(v, buf, 0)),
{
    lemma_run_drain(v, buf, 0);
    assert(buf.skip(0) =~= buf);
    if let Ok(d) = drain(v, buf) {
        assert(Seq::<u8>::empty() + d.body =~= d.body);
    }
}

/// What was reported is what is counted as delivered, up to saturation.
pub proof fn law_delivered_counts_the_body(v: DecoderView, r: Seq<u8>)
    requires
        drain(v, r) is Ok,
    ensures
        (drain(v, r)->Ok_0).view.delivered == sat64(
            v.delivered + (drain(v, r)->Ok_0).body.len(),
        ),
        (drain(v, r)->Ok_0).body.len() <= (drain(v, r)->Ok_0).taken <= r.len(),
    decreases r.len(),
{
    lemma_drain_step(v, r);
    lemma_micro_bounds(v, r);
    match micro(v, r) {
        Micro::Go(next, n) => {
            law_delivered_counts_the_body(next, r.skip(n));
        },
        Micro::Give(next, n) => {
            law_delivered_counts_the_body(next, r.skip(n));
        },
        _ => {},
    }
}

/// Whether no field is one that may not stand in a trailer section.
pub open spec fn none_denied(fields: Seq<Field>) -> bool {
    forall|i: int| 0 <= i < fields.len() ==> !trailer_denied_spec((#[trigger] fields[i]).known())
}

/// Whether no denied field is among the trailers, finished or not.
pub open spec fn trailers_allowed(v: DecoderView) -> bool {
    &&& v.section matches Some(s) ==> none_denied(s.fields)
    &&& v.trailers matches Some(t) ==> none_denied(t)
}

/// No denied field ever gets into the trailers.
pub proof fn law_denied_trailers_never_accepted(v: DecoderView, r: Seq<u8>)
    requires
        trailers_allowed(v),
        v.state is Trailers ==> v.section is Some,
        drain(v, r) is Ok,
    ensures
        trailers_allowed((drain(v, r)->Ok_0).view),
    decreases r.len(),
{
    lemma_drain_step(v, r);
    lemma_micro_bounds(v, r);
    match micro(v, r) {
        Micro::Go(next, n) => {
            if v.state is Trailers {
                let window = search_window(r, v.limits);
                let line = window.take(find_seq(window, crlf(), 0)->Some_0);
                let name = canonical_name(line_name(line));
                assert(none_denied((next.section->Some_0).fields));
            }
            law_denied_trailers_never_accepted(next, r.skip(n));
        },
        Micro::Give(next, n) => {
            law_denied_trailers_never_accepted(next, r.skip(n));
        },
        _ => {},
    }
}

/// The data of a chunk is not read: where only data is due, two buffers of one
/// length lead to the same event and the same state.
pub proof fn law_data_is_not_read(v: DecoderView, a: Seq<u8>, b: Seq<u8>)
    requires
        v.state is Data,
        a.len() == b.len(),
    ensures
        run(v, a, 0) == run(v, b, 0),
{
    lemma_run_step(v, a, 0);
    lemma_run_step(v, b, 0);
}

/// Whether there are trailers exactly where the message is complete.
pub open spec fn trailers_when_done(v: DecoderView) -> bool {
    v.state is Done <==> v.trailers is Some
}

/// There are trailers exactly where the message is complete: before the first
/// byte, after every call that is not refused, and after one that is, as far
/// as its state is stated.
pub proof fn law_trailers_exactly_when_done(
    limits: Limits,
    underscores: UnderscorePolicy,
    v: DecoderView,
    buf: Seq<u8>,
    at: int,
)
    requires
        0 <= at <= buf.len(),
        trailers_when_done(v),
    ensures
        trailers_when_done(DecoderView::fresh(limits, underscores)),
        run(v, buf, at) matches Ok((next, event, _)) ==> trailers_when_done(next) && (
        next.state is Done <==> event is Done),
        run(v, buf, at) is Err ==> forall|after: DecoderView|
            #![trigger kept(v, after)]
            kept(v, after) ==> trailers_when_done(after),
    decreases buf.len() - at,
{
    lemma_run_step(v, buf, at);
    lemma_micro_bounds(v, buf.skip(at));
    if let Micro::Go(next, n) = micro(v, buf.skip(at)) {
        law_trailers_exactly_when_done(limits, underscores, next, buf, at + n);
        assert(next.trailers == v.trailers);
    }
}

/// A decoder that can go on has trailers exactly when it is done.
pub proof fn law_decoder_has_trailers_when_done(d: ChunkedDecoder, arena: Seq<u8>)
    requires
        d.wf(arena),
    ensures
        trailers_when_done(d.state_in(arena)),
{
}

} // verus!
