//! Which lines make a head.
use crate::error::RejectReason;
use crate::field::{
    all_value_bytes, canonical_name, lemma_ows_from, lemma_ows_to, ows_from, ows_to, trim, value_byte,
    UnderscorePolicy,
};
use crate::h1::chunked::{line_bare_error, trailer_line, DecoderView};
use crate::h1::parser::{
    bare_error, bare_error_at, bare_region, colon_error, crlf, field_line, has_upper, head_end,
    lemma_bare_error, line_name, line_rest, obs_fold, raw_name_error, request_head, request_line, response_head, status_line,
    terminator, version_of, RawField, Span,
};
use crate::hlist::BudgetView;
use crate::laws::classes::{blank, law_trim_takes_blanks, tight};
use crate::laws::names::{header_only_name, law_field_kinds};
use crate::limits::Limits;
use crate::scalar::{all_tchar, method_error, named_method, tchar, Method, WireVersion};
use crate::section::Field;
use crate::text::{
    ascii, find, find_seq, is_ows, is_upper, lemma_ascii, lemma_find, lemma_find_is, lemma_find_seq,
    lemma_find_seq_is, occurs_at,
};
use vstd::prelude::*;

verus! {

// ---- line ends ----

/// Whether every CR is followed by LF, and every LF comes behind a CR.
pub open spec fn ends_are_paired(s: Seq<u8>) -> bool {
    forall|i: int|
        0 <= i < s.len() ==> {
            &&& #[trigger] s[i] == 13 ==> i + 1 < s.len() && s[i + 1] == 10
            &&& s[i] == 10 ==> i > 0 && s[i - 1] == 13
        }
}

/// A head is refused for its line ends exactly if a CR or an LF in it stands
/// alone; it is named after the first such byte.
pub proof fn law_line_ends(s: Seq<u8>)
    ensures
        bare_error(s, 0) is None <==> ends_are_paired(s),
        bare_error(s, 0) is Some ==> bare_error(s, 0) == Some(RejectReason::BareCr) || bare_error(
            s,
            0,
        ) == Some(RejectReason::BareLf),
{
    lemma_bare_error(s, 0);
    lemma_bare_kind(s, 0);
    if ends_are_paired(s) {
        assert forall|j: int| 0 <= j < s.len() implies #[trigger] bare_error_at(s, j) is None by {
            assert(s[j] == 13 ==> j + 1 < s.len() && s[j + 1] == 10);
        }
    }
    if forall|j: int| 0 <= j < s.len() ==> #[trigger] bare_error_at(s, j) is None {
        assert forall|i: int| 0 <= i < s.len() implies {
            &&& #[trigger] s[i] == 13 ==> i + 1 < s.len() && s[i + 1] == 10
            &&& s[i] == 10 ==> i > 0 && s[i - 1] == 13
        } by {
            assert(bare_error_at(s, i) is None);
        }
    }
}

proof fn lemma_bare_kind(s: Seq<u8>, i: int)
    requires
        0 <= i <= s.len(),
    ensures
        bare_error(s, i) is Some ==> bare_error(s, i) == Some(RejectReason::BareCr) || bare_error(
            s,
            i,
        ) == Some(RejectReason::BareLf),
    decreases s.len() - i,
{
    if i < s.len() {
        lemma_bare_kind(s, i + 1);
    }
}

/// A CR alone refuses as such, and an LF alone as such, where nothing before it
/// does.
pub proof fn law_lone_line_ends(a: Seq<u8>, b: u8, c: Seq<u8>)
    requires
        ends_are_paired(a),
    ensures
        c.len() > 0 && c[0] != 10 ==> bare_error(a + seq![13u8] + c, 0) == Some(
            RejectReason::BareCr,
        ),
        c.len() == 0 ==> bare_error(a + seq![13u8] + c, 0) == Some(RejectReason::BareCr),
        bare_error(a + seq![10u8] + c, 0) == Some(RejectReason::BareLf),
{
    let x = a + seq![13u8] + c;
    let y = a + seq![10u8] + c;
    lemma_lone(a, x, 0);
    lemma_lone(a, y, 0);
    let n = a.len() as int;
    assert(x[n] == 13 && y[n] == 10);
    if c.len() > 0 {
        assert(x[n + 1] == c[0]);
    }
    if n > 0 {
        assert(y[n - 1] == a[n - 1]);
        assert(a[n - 1] == 13 ==> n < a.len());
    }
}

proof fn lemma_lone(a: Seq<u8>, s: Seq<u8>, i: int)
    requires
        ends_are_paired(a),
        0 <= i <= a.len() < s.len(),
        forall|j: int| 0 <= j < a.len() ==> s[j] == #[trigger] a[j],
    ensures
        bare_error(s, i) == bare_error(s, a.len() as int),
    decreases a.len() - i,
{
    if i < a.len() {
        assert(s[i] == a[i]);
        if a[i] == 13 {
            assert(a[i + 1] == 10);
            assert(s[i + 1] == a[i + 1]);
        }
        if a[i] == 10 {
            assert(a[i - 1] == 13);
            assert(s[i - 1] == a[i - 1]);
        }
        lemma_lone(a, s, i + 1);
    }
}

/// A head ends at the first empty line. While there is none it is not complete,
/// and refused once it is longer than the request line, the field lines and
/// two bytes may be.
pub proof fn law_head_ends_at_the_empty_line(buf: Seq<u8>, limits: Limits)
    ensures
        match terminator(buf, limits) {
            Ok(Some(t)) => {
                &&& 0 <= t && t + 4 <= buf.len()
                &&& buf.subrange(t, t + 4) == seq![13u8, 10u8, 13u8, 10u8]
                &&& forall|j: int|
                    0 <= j < t ==> #[trigger] buf.subrange(j, j + 4) != seq![
                        13u8,
                        10u8,
                        13u8,
                        10u8,
                    ]
                &&& ends_are_paired(buf.take(t + 4))
            },
            Ok(None) => {
                &&& forall|j: int|
                    0 <= j && j + 4 <= buf.len() ==> #[trigger] buf.subrange(j, j + 4) != seq![
                        13u8,
                        10u8,
                        13u8,
                        10u8,
                    ]
                &&& buf.len() <= limits.max_request_line_bytes + limits.max_header_list_bytes + 2
            },
            Err(e) => e == RejectReason::BareCr || e == RejectReason::BareLf || e
                == RejectReason::HeaderListTooLarge && buf.len() > limits.max_request_line_bytes
                + limits.max_header_list_bytes + 2,
        },
{
    let t = find_seq(buf, head_end(), 0);
    lemma_find_seq(buf, head_end(), 0);
    law_line_ends(bare_region(buf, t));
    assert(head_end() =~= seq![13u8, 10u8, 13u8, 10u8]);
    assert forall|j: int|
        0 <= j && j + 4 <= buf.len() && #[trigger] buf.subrange(j, j + 4) == seq![
            13u8,
            10u8,
            13u8,
            10u8,
        ] implies crate::text::occurs_at(buf, head_end(), j) by {}
}

/// A first line that is longer than allowed, its line end included, refuses the
/// head.
pub proof fn law_long_first_line(buf: Seq<u8>, limits: Limits, policy: UnderscorePolicy, n: int)
    requires
        terminator(buf, limits) matches Ok(Some(_)),
        0 <= n,
        n + 2 <= buf.len(),
        buf.subrange(n, n + 2) == seq![13u8, 10u8],
        forall|j: int| 0 <= j < n ==> #[trigger] buf.subrange(j, j + 2) != seq![13u8, 10u8],
        n + 2 > limits.max_request_line_bytes,
    ensures
        request_head(buf, limits, policy) is Err,
        request_head(buf, limits, policy)->Err_0 == RejectReason::RequestLineTooLong,
        response_head(buf, limits, policy) is Err,
        response_head(buf, limits, policy)->Err_0 == RejectReason::RequestLineTooLong,
{
    assert(crlf() =~= seq![13u8, 10u8]);
    assert(occurs_at(buf, crlf(), n));
    assert forall|j: int| 0 <= j < n implies !occurs_at(buf, crlf(), j) by {
        assert(buf.subrange(j, j + 2) != seq![13u8, 10u8]);
    }
    lemma_find_seq_is(buf, crlf(), 0, n);
}

/// What is found in the first line, and the field lines behind it up to the
/// empty line, are the head, which takes the empty line with it.
pub proof fn law_head_is_taken_whole(buf: Seq<u8>, limits: Limits, policy: UnderscorePolicy)
    ensures
        match request_head(buf, limits, policy) {
            Ok(Some((h, n))) => terminator(buf, limits) == Ok::<Option<int>, RejectReason>(
                Some(n - 4),
            ),
            Ok(None) => terminator(buf, limits) == Ok::<Option<int>, RejectReason>(None),
            Err(_) => terminator(buf, limits) != Ok::<Option<int>, RejectReason>(None),
        },
        match response_head(buf, limits, policy) {
            Ok(Some((h, n))) => terminator(buf, limits) == Ok::<Option<int>, RejectReason>(
                Some(n - 4),
            ),
            Ok(None) => terminator(buf, limits) == Ok::<Option<int>, RejectReason>(None),
            Err(_) => terminator(buf, limits) != Ok::<Option<int>, RejectReason>(None),
        },
{
}

// ---- the first line ----

proof fn lemma_versions()
    ensures
        ascii("HTTP/1.1"@) == seq![72u8, 84u8, 84u8, 80u8, 47u8, 49u8, 46u8, 49u8],
        ascii("HTTP/1.0"@) == seq![72u8, 84u8, 84u8, 80u8, 47u8, 49u8, 46u8, 48u8],
{
    reveal_strlit("HTTP/1.1");
    reveal_strlit("HTTP/1.0");
    lemma_ascii("HTTP/1.1"@);
    lemma_ascii("HTTP/1.0"@);
    assert(ascii("HTTP/1.1"@) =~= seq![72u8, 84u8, 84u8, 80u8, 47u8, 49u8, 46u8, 49u8]);
    assert(ascii("HTTP/1.0"@) =~= seq![72u8, 84u8, 84u8, 80u8, 47u8, 49u8, 46u8, 48u8]);
}

/// There are two versions, and each is written in one way.
pub proof fn law_versions(s: Seq<u8>)
    ensures
        version_of(s) == Some(WireVersion::Http11) <==> s == ascii("HTTP/1.1"@),
        version_of(s) == Some(WireVersion::Http10) <==> s == ascii("HTTP/1.0"@),
        version_of(s) is Some ==> version_of(s) == Some(WireVersion::Http11) || version_of(s)
            == Some(WireVersion::Http10),
{
    lemma_versions();
    assert(ascii("HTTP/1.1"@)[7] != ascii("HTTP/1.0"@)[7]);
}

/// Whether neither SP nor HTAB occurs.
pub open spec fn unbroken(s: Seq<u8>) -> bool {
    forall|i: int| 0 <= i < s.len() ==> #[trigger] s[i] != 32 && s[i] != 9
}

/// A method, a target and a version with one SP between each two are a request
/// line: the method and the target are found in it as they are. A method is a
/// token that is not too long; a target has no `#`.
pub proof fn law_request_line(m: Seq<u8>, t: Seq<u8>, v: WireVersion, limits: Limits)
    requires
        v is Http10 || v is Http11,
        0 < m.len() <= limits.max_method_bytes,
        forall|i: int| 0 <= i < m.len() ==> tchar(#[trigger] m[i]),
        t.len() > 0,
        unbroken(t),
        forall|i: int| 0 <= i < t.len() ==> #[trigger] t[i] != 35,
    ensures
        ({
            let version = if v is Http11 {
                ascii("HTTP/1.1"@)
            } else {
                ascii("HTTP/1.0"@)
            };
            request_line(m + seq![32u8] + t + seq![32u8] + version, limits) == Ok::<
                (int, int, WireVersion),
                RejectReason,
            >((m.len() as int, (m.len() + 1 + t.len()) as int, v))
        }),
{
    lemma_versions();
    let version = if v is Http11 {
        ascii("HTTP/1.1"@)
    } else {
        ascii("HTTP/1.0"@)
    };
    let line = m + seq![32u8] + t + seq![32u8] + version;
    law_versions(version);
    let a = m.len() as int;
    let b = (a + 1 + t.len()) as int;
    assert forall|i: int| 0 <= i < line.len() && i != a && i != b implies #[trigger] line[i] != 32
        && line[i] != 9 by {
        if i < a {
            assert(line[i] == m[i]);
            assert(tchar(m[i]));
        } else if i < b {
            assert(line[i] == t[i - a - 1]);
        } else {
            assert(line[i] == version[i - b - 1]);
        }
    }
    assert(line[a] == 32 && line[b] == 32);
    lemma_find(line, '\t' as u8, 0);
    lemma_find_is(line, ' ' as u8, 0, a);
    lemma_find_is(line, ' ' as u8, a + 1, b);
    lemma_find(line, ' ' as u8, b + 1);
    assert(line.take(a) =~= m);
    assert(line.subrange(a + 1, b) =~= t);
    assert(line.skip(b + 1) =~= version);
    assert(line[0] == m[0]);
    assert(tchar(m[0]));
    assert(line.last() == version.last());
    lemma_find(t, '#' as u8, 0);
    let at = find(t, '#' as u8, 0);
    if at < t.len() {
        assert(t[at] == 35);
    }
    assert(all_tchar(m));
}

/// A line that is taken as a request line is a method, a target and a version
/// with one SP between each two.
pub proof fn law_request_line_shape(line: Seq<u8>, limits: Limits)
    requires
        request_line(line, limits) is Ok,
    ensures
        ({
            let (a, b, v) = request_line(line, limits)->Ok_0;
            let m = line.take(a);
            let t = line.subrange(a + 1, b);
            &&& 0 < a && a + 1 < b < line.len()
            &&& line[a] == 32 && line[b] == 32
            &&& line.skip(b + 1) == if v is Http11 {
                ascii("HTTP/1.1"@)
            } else {
                ascii("HTTP/1.0"@)
            }
            &&& v is Http10 || v is Http11
            &&& m.len() <= limits.max_method_bytes
            &&& forall|i: int| 0 <= i < m.len() ==> tchar(#[trigger] m[i])
            &&& unbroken(t)
            &&& forall|i: int| 0 <= i < t.len() ==> #[trigger] t[i] != 35
        }),
{
    let (a, b, v) = request_line(line, limits)->Ok_0;
    let m = line.take(a);
    let t = line.subrange(a + 1, b);
    lemma_find(line, ' ' as u8, 0);
    lemma_find(line, ' ' as u8, a + 1);
    lemma_find(line, '\t' as u8, 0);
    lemma_find(t, '#' as u8, 0);
    law_versions(line.skip(b + 1));
    assert(all_tchar(m));
    assert forall|i: int| 0 <= i < t.len() implies #[trigger] t[i] != 32 && t[i] != 9 && t[i]
        != 35 by {
        assert(t[i] == line[a + 1 + i]);
    }
}

/// The nine methods that have a name, each written in one way.
pub proof fn law_method_names(raw: Seq<u8>)
    ensures
        raw == ascii("GET"@) ==> named_method(raw) == Some(Method::Get),
        raw == ascii("HEAD"@) ==> named_method(raw) == Some(Method::Head),
        raw == ascii("POST"@) ==> named_method(raw) == Some(Method::Post),
        raw == ascii("PUT"@) ==> named_method(raw) == Some(Method::Put),
        raw == ascii("DELETE"@) ==> named_method(raw) == Some(Method::Delete),
        raw == ascii("CONNECT"@) ==> named_method(raw) == Some(Method::Connect),
        raw == ascii("OPTIONS"@) ==> named_method(raw) == Some(Method::Options),
        raw == ascii("TRACE"@) ==> named_method(raw) == Some(Method::Trace),
        raw == ascii("PATCH"@) ==> named_method(raw) == Some(Method::Patch),
        match named_method(raw) {
            Some(m) => !(m is Extension) && m.bytes_spec() == raw,
            None => raw != ascii("GET"@) && raw != ascii("HEAD"@) && raw != ascii("POST"@) && raw
                != ascii("PUT"@) && raw != ascii("DELETE"@) && raw != ascii("CONNECT"@) && raw
                != ascii("OPTIONS"@) && raw != ascii("TRACE"@) && raw != ascii("PATCH"@),
        },
{
    reveal_strlit("GET");
    reveal_strlit("HEAD");
    reveal_strlit("POST");
    reveal_strlit("PUT");
    reveal_strlit("DELETE");
    reveal_strlit("CONNECT");
    reveal_strlit("OPTIONS");
    reveal_strlit("TRACE");
    reveal_strlit("PATCH");
    lemma_ascii("GET"@);
    lemma_ascii("HEAD"@);
    lemma_ascii("POST"@);
    lemma_ascii("PUT"@);
    lemma_ascii("DELETE"@);
    lemma_ascii("CONNECT"@);
    lemma_ascii("OPTIONS"@);
    lemma_ascii("TRACE"@);
    lemma_ascii("PATCH"@);
    assert(ascii("GET"@)[0] != ascii("PUT"@)[0]);
    assert(ascii("HEAD"@)[0] != ascii("POST"@)[0]);
    assert(ascii("CONNECT"@)[0] != ascii("OPTIONS"@)[0]);
    assert(ascii("TRACE"@)[0] != ascii("PATCH"@)[0]);
}

/// What is no method: nothing, what is too long, and what has a byte in it that
/// no token has.
pub proof fn law_refused_methods(raw: Seq<u8>, max_bytes: u32)
    ensures
        raw.len() == 0 ==> method_error(raw, max_bytes) == Some(RejectReason::MethodInvalid),
        raw.len() > max_bytes && raw.len() > 0 ==> method_error(raw, max_bytes) == Some(
            RejectReason::MethodTooLong,
        ),
        0 < raw.len() <= max_bytes ==> (method_error(raw, max_bytes) is None <==> forall|i: int|
            0 <= i < raw.len() ==> tchar(#[trigger] raw[i])),
        0 < raw.len() <= max_bytes && method_error(raw, max_bytes) is Some ==> method_error(
            raw,
            max_bytes,
        ) == Some(RejectReason::MethodInvalid),
{
}

/// A version, SP and three digits of 100 to 599, with SP and a reason behind
/// them or nothing, are a status line of that number.
pub proof fn law_status_line(v: WireVersion, x: u8, y: u8, z: u8, reason: Option<Seq<u8>>)
    requires
        v is Http10 || v is Http11,
        49 <= x <= 53,
        48 <= y <= 57,
        48 <= z <= 57,
        reason is Some ==> forall|i: int|
            0 <= i < (reason->Some_0).len() ==> {
                let b = #[trigger] (reason->Some_0)[i];
                b != 0 && b != 10 && b != 13 && b != 9
            },
    ensures
        ({
            let version = if v is Http11 {
                ascii("HTTP/1.1"@)
            } else {
                ascii("HTTP/1.0"@)
            };
            let tail = match reason {
                Some(r) => seq![32u8] + r,
                None => Seq::empty(),
            };
            let code = (x - 48) * 100 + (y - 48) * 10 + (z - 48);
            status_line(version + seq![32u8, x, y, z] + tail) == Ok::<
                (u16, WireVersion),
                RejectReason,
            >((code as u16, v))
        }),
{
    lemma_versions();
    let version = if v is Http11 {
        ascii("HTTP/1.1"@)
    } else {
        ascii("HTTP/1.0"@)
    };
    let tail = match reason {
        Some(r) => seq![32u8] + r,
        None => Seq::empty(),
    };
    let line = version + seq![32u8, x, y, z] + tail;
    law_versions(version);
    assert forall|i: int| 0 <= i < 8 implies line[i] != 32 by {
        assert(line[i] == version[i]);
    }
    assert(line[8] == 32);
    lemma_find_is(line, ' ' as u8, 0, 8);
    assert forall|i: int| 0 <= i < line.len() implies line[i] != 9 by {
        if i < 8 {
            assert(line[i] == version[i]);
        } else if i >= 12 {
            assert(line[i] == tail[i - 12]);
            if i > 12 {
                assert(tail[i - 12] == (reason->Some_0)[i - 13]);
            }
        }
    }
    lemma_find(line, '\t' as u8, 0);
    assert(line.take(8) =~= version);
    let rest = line.skip(9);
    assert(rest =~= seq![x, y, z] + tail);
    if let Some(r) = reason {
        assert(rest[3] == 32);
        assert(rest.skip(4) =~= r);
        assert forall|i: int| 0 <= i < r.len() implies value_byte(#[trigger] r[i]) by {
            assert(r[i] != 0 && r[i] != 10 && r[i] != 13);
        }
    }
}

/// A status line that is taken has a version, SP, three digits that write its
/// number, from 100 to 599, and then nothing or SP.
pub proof fn law_status_line_shape(line: Seq<u8>)
    requires
        status_line(line) is Ok,
    ensures
        ({
            let (code, v) = status_line(line)->Ok_0;
            &&& line.len() >= 12
            &&& line.take(8) == if v is Http11 {
                ascii("HTTP/1.1"@)
            } else {
                ascii("HTTP/1.0"@)
            }
            &&& line[8] == 32
            &&& 48 <= line[9] <= 57 && 48 <= line[10] <= 57 && 48 <= line[11] <= 57
            &&& code == (line[9] - 48) * 100 + (line[10] - 48) * 10 + (line[11] - 48)
            &&& 100 <= code <= 599
            &&& line.len() > 12 ==> line[12] == 32
        }),
{
    lemma_versions();
    let sp = find(line, ' ' as u8, 0);
    lemma_find(line, ' ' as u8, 0);
    law_versions(line.take(sp));
    assert(line.take(sp).len() == sp);
    assert(sp == 8);
    let rest = line.skip(9);
    assert(rest[0] == line[9] && rest[1] == line[10] && rest[2] == line[11]);
}

// ---- field lines ----

/// Whether a byte may stand in a name as it is received.
pub open spec fn received_name_byte(b: u8, policy: UnderscorePolicy) -> bool {
    tchar(b) && (b == 95 ==> !(policy is Reject))
}

/// A name, a colon and a value with blanks around it are a field line: the name
/// and the value are found in it as they are, and the name is marked if it has
/// a capital. The line is within its limit, the budget and the spans.
pub proof fn law_field_line(
    name: Seq<u8>,
    a: Seq<u8>,
    value: Seq<u8>,
    b: Seq<u8>,
    pos: int,
    limits: Limits,
    policy: UnderscorePolicy,
    budget: BudgetView,
)
    requires
        0 <= pos,
        name.len() > 0,
        forall|i: int| 0 <= i < name.len() ==> received_name_byte(#[trigger] name[i], policy),
        blank(a),
        blank(b),
        tight(value),
        value.len() > 0,
        forall|i: int|
            0 <= i < value.len() ==> #[trigger] value[i] != 0 && value[i] != 10 && value[i] != 13,
        name.len() + value.len() <= limits.max_field_line_bytes,
        budget.charge_result(name.len() as int, value.len() as int) is Ok,
        pos + name.len() + 1 + a.len() + value.len() <= u32::MAX,
    ensures
        ({
            let r = field_line(name + seq![58u8] + a + value + b, pos, limits, policy, budget);
            let at = pos + name.len() + 1 + a.len();
            &&& r is Ok
            &&& r->Ok_0.name == (Span { start: pos as u32, end: (pos + name.len()) as u32 })
            &&& r->Ok_0.value == (Span { start: at as u32, end: (at + value.len()) as u32 })
            &&& r->Ok_0.needs_lowercase <==> exists|i: int|
                0 <= i < name.len() && 65 <= #[trigger] name[i] <= 90
        }),
{
    let line = name + seq![58u8] + a + value + b;
    lemma_field_shape(name, a + value + b, policy);
    assert(line =~= name + seq![58u8] + (a + value + b));
    lemma_bounds(a, value, b);
    assert((a + value + b).subrange(a.len() as int, (a.len() + value.len()) as int) =~= value);
    lemma_received(name, policy, 0);
    assert(all_value_bytes(value)) by {
        assert forall|i: int| 0 <= i < value.len() implies value_byte(#[trigger] value[i]) by {
            assert(value[i] != 0 && value[i] != 10 && value[i] != 13);
        }
    }
    assert(has_upper(name) <==> exists|i: int|
        0 <= i < name.len() && 65 <= #[trigger] name[i] <= 90) by {
        if exists|i: int| 0 <= i < name.len() && 65 <= #[trigger] name[i] <= 90 {
            let i = choose|i: int| 0 <= i < name.len() && 65 <= #[trigger] name[i] <= 90;
            assert(is_upper(name[i]));
        }
    }
}

proof fn lemma_field_shape(name: Seq<u8>, rest: Seq<u8>, policy: UnderscorePolicy)
    requires
        name.len() > 0,
        forall|i: int| 0 <= i < name.len() ==> received_name_byte(#[trigger] name[i], policy),
    ensures
        ({
            let line = name + seq![58u8] + rest;
            &&& !obs_fold(line)
            &&& colon_error(line) is None
            &&& line_name(line) == name
            &&& line_rest(line) == rest
        }),
{
    let line = name + seq![58u8] + rest;
    let n = name.len() as int;
    assert forall|i: int| 0 <= i < n implies line[i] != 58 by {
        assert(line[i] == name[i]);
        assert(received_name_byte(name[i], policy));
    }
    assert(line[n] == 58);
    lemma_find_is(line, ':' as u8, 0, n);
    assert(received_name_byte(name[0], policy));
    assert(line[0] == name[0]);
    assert(line[n - 1] == name[n - 1]);
    assert(received_name_byte(name[n - 1], policy));
    assert(line.take(n) =~= name);
    assert(line.skip(n + 1) =~= rest);
}

proof fn lemma_bounds(a: Seq<u8>, s: Seq<u8>, b: Seq<u8>)
    requires
        blank(a),
        blank(b),
        tight(s),
        s.len() > 0,
    ensures
        ows_from(a + s + b, 0) == a.len(),
        ows_to(a + s + b, a.len() as int, (a + s + b).len() as int) == a.len() + s.len(),
{
    let t = a + s + b;
    let n = a.len() as int;
    let m = n + s.len();
    assert forall|i: int| 0 <= i < n implies is_ows(t[i]) by {
        assert(t[i] == a[i]);
    }
    assert forall|i: int| m <= i < t.len() implies is_ows(t[i]) by {
        assert(t[i] == b[i - m]);
    }
    lemma_ows_from(t, 0);
    assert(t[n] == s[0] && t[m - 1] == s.last());
    lemma_ows_to(t, n, t.len() as int);
}

proof fn lemma_received(name: Seq<u8>, policy: UnderscorePolicy, i: int)
    requires
        0 <= i <= name.len(),
        forall|j: int| 0 <= j < name.len() ==> received_name_byte(#[trigger] name[j], policy),
    ensures
        raw_name_error(name, policy, i) is None,
    decreases name.len() - i,
{
    if i < name.len() {
        assert(received_name_byte(name[i], policy));
        lemma_received(name, policy, i + 1);
    }
}

/// Why a field line is refused for its shape: it begins with a blank, has no
/// colon, has nothing before it, or has a blank before it. The first byte of
/// the name that may not stand there refuses it as an underscore or as
/// invalid.
pub proof fn law_refused_field_lines(
    line: Seq<u8>,
    name: Seq<u8>,
    rest: Seq<u8>,
    k: int,
    pos: int,
    limits: Limits,
    policy: UnderscorePolicy,
    budget: BudgetView,
)
    ensures
        line.len() > 0 && (line[0] == 32 || line[0] == 9) ==> field_line(
            line,
            pos,
            limits,
            policy,
            budget,
        ) == Err::<RawField, RejectReason>(RejectReason::ObsFold),
        line.len() > 0 && line[0] != 32 && line[0] != 9 && !line.contains(58u8) ==> field_line(
            line,
            pos,
            limits,
            policy,
            budget,
        ) == Err::<RawField, RejectReason>(RejectReason::RequestLineMalformed),
        line.len() > 0 && line[0] == 58 ==> field_line(line, pos, limits, policy, budget) == Err::<
            RawField,
            RejectReason,
        >(RejectReason::FieldNameEmpty),
        name.len() > 0 && !name.contains(58u8) && name[0] != 32 && name[0] != 9 && (name.last()
            == 32 || name.last() == 9) ==> field_line(
            name + seq![58u8] + rest,
            pos,
            limits,
            policy,
            budget,
        ) == Err::<RawField, RejectReason>(RejectReason::WhitespaceBeforeColon),
        name.len() > 0 && !name.contains(58u8) && name[0] != 32 && name[0] != 9 && name.last() != 32
            && name.last() != 9 && 0 <= k < name.len() && (forall|j: int|
            0 <= j < k ==> received_name_byte(#[trigger] name[j], policy)) && !received_name_byte(
            name[k],
            policy,
        ) ==> field_line(name + seq![58u8] + rest, pos, limits, policy, budget) == Err::<
            RawField,
            RejectReason,
        >(
            if name[k] == 95 {
                RejectReason::FieldNameUnderscore
            } else {
                RejectReason::FieldNameInvalidByte
            },
        ),
{
    lemma_find(line, ':' as u8, 0);
    let c = find(line, ':' as u8, 0);
    if c < line.len() {
        assert(line.contains(line[c]));
    }
    let full = name + seq![58u8] + rest;
    let n = name.len() as int;
    if n > 0 && !name.contains(58u8) {
        assert forall|i: int| 0 <= i < n implies full[i] != 58 by {
            assert(full[i] == name[i]);
            assert(name.contains(name[i]));
        }
        assert(full[n] == 58);
        lemma_find_is(full, ':' as u8, 0, n);
        assert(full[0] == name[0]);
        assert(full[n - 1] == name.last());
        assert(full.take(n) =~= name);
        if 0 <= k < n && (forall|j: int|
            0 <= j < k ==> received_name_byte(#[trigger] name[j], policy)) && !received_name_byte(
            name[k],
            policy,
        ) {
            lemma_first_bad_name(name, policy, 0, k);
        }
    }
}

proof fn lemma_first_bad_name(name: Seq<u8>, policy: UnderscorePolicy, i: int, k: int)
    requires
        0 <= i <= k < name.len(),
        forall|j: int| 0 <= j < k ==> received_name_byte(#[trigger] name[j], policy),
        !received_name_byte(name[k], policy),
    ensures
        raw_name_error(name, policy, i) == Some(
            if name[k] == 95 {
                RejectReason::FieldNameUnderscore
            } else {
                RejectReason::FieldNameInvalidByte
            },
        ),
    decreases k - i,
{
    if i < k {
        assert(received_name_byte(name[i], policy));
        lemma_first_bad_name(name, policy, i + 1, k);
    }
}

/// A line that is taken has a value without NUL, CR and LF, and is within its
/// limit and the budget.
pub proof fn law_accepted_field_line(
    line: Seq<u8>,
    pos: int,
    limits: Limits,
    policy: UnderscorePolicy,
    budget: BudgetView,
)
    requires
        field_line(line, pos, limits, policy, budget) is Ok,
    ensures
        ({
            let c = find(line, 58u8, 0);
            let name = line.take(c);
            let value = trim(line.skip(c + 1));
            &&& 0 < c < line.len()
            &&& line[0] != 32 && line[0] != 9
            &&& line[c - 1] != 32 && line[c - 1] != 9
            &&& forall|i: int|
                0 <= i < value.len() ==> #[trigger] value[i] != 0 && value[i] != 10 && value[i]
                    != 13
            &&& name.len() + value.len() <= limits.max_field_line_bytes
            &&& budget.charge_result(name.len() as int, value.len() as int) is Ok
        }),
{
    lemma_find(line, 58u8, 0);
    let c = find(line, 58u8, 0);
    let value = trim(line.skip(c + 1));
    assert forall|i: int| 0 <= i < value.len() implies #[trigger] value[i] != 0 && value[i] != 10
        && value[i] != 13 by {
        assert(value_byte(value[i]));
    }
}

// ---- trailer lines ----

proof fn lemma_no_bare(line: Seq<u8>, i: int)
    requires
        0 <= i <= line.len(),
        forall|j: int| 0 <= j < line.len() ==> #[trigger] line[j] != 13 && line[j] != 10,
    ensures
        line_bare_error(line, i) is None,
    decreases line.len() - i,
{
    if i < line.len() {
        assert(line[i] != 13 && line[i] != 10);
        lemma_no_bare(line, i + 1);
    }
}

/// A trailer line goes into the section under the canonical form of its name,
/// behind the trailers that are there; but a name that only a header may have
/// refuses it.
pub proof fn law_trailer_line(
    v: DecoderView,
    name: Seq<u8>,
    a: Seq<u8>,
    value: Seq<u8>,
    b: Seq<u8>,
)
    requires
        v.section is Some,
        name.len() > 0,
        forall|i: int|
            0 <= i < name.len() ==> received_name_byte(#[trigger] name[i], v.underscores),
        blank(a),
        blank(b),
        tight(value),
        forall|i: int|
            0 <= i < value.len() ==> #[trigger] value[i] != 0 && value[i] != 10 && value[i] != 13,
        name.len() + value.len() <= v.limits.max_field_line_bytes,
        v.budget.charge_result(name.len() as int, value.len() as int) is Ok,
        (v.section->Some_0).add_raw_error(name, v.underscores, value, WireVersion::Http11) is None,
    ensures
        ({
            let r = trailer_line(v, name + seq![58u8] + a + value + b);
            if header_only_name(canonical_name(name)) {
                r == Err::<DecoderView, RejectReason>(RejectReason::TrailerFieldForbidden)
            } else {
                &&& r is Ok
                &&& r->Ok_0.section is Some
                &&& (r->Ok_0.section->Some_0).fields == (v.section->Some_0).fields.push(
                    Field { name: canonical_name(name), value },
                )
                &&& r->Ok_0.state == v.state
                &&& r->Ok_0.delivered == v.delivered
            }
        }),
{
    let line = name + seq![58u8] + a + value + b;
    lemma_field_shape(name, a + value + b, v.underscores);
    assert(line =~= name + seq![58u8] + (a + value + b));
    law_trim_takes_blanks(a, value, b);
    assert forall|j: int| 0 <= j < line.len() implies #[trigger] line[j] != 13 && line[j] != 10 by {
        let n = name.len() as int;
        if j < n {
            assert(line[j] == name[j]);
            assert(received_name_byte(name[j], v.underscores));
        } else if n < j < n + 1 + a.len() {
            assert(line[j] == a[j - n - 1]);
        } else if n + 1 + a.len() <= j < n + 1 + a.len() + value.len() {
            assert(line[j] == value[j - n - 1 - a.len()]);
        } else if j > n {
            assert(line[j] == b[j - n - 1 - a.len() - value.len()]);
        }
    }
    lemma_no_bare(line, 0);
    law_field_kinds(canonical_name(name));
}

} // verus!
