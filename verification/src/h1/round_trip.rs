//! What is written of a message head, read again: lines, fields and the head.
use crate::error::RejectReason;
use crate::field::{
    all_value_bytes, canonical_name, law_valid_name, lemma_ows_from, lemma_ows_to, name_byte,
    ows_from, ows_to, trim, underscore_refused, UnderscorePolicy,
};
use crate::h1::canonicalize::{compact_from, compacted};
use crate::h1::parser::{
    bare_error_at, crlf, field_line, field_lines, head_end, lemma_bare_error, line_charged,
    line_name, line_rest, raw_name_byte_error, raw_name_error, request_head, request_line,
    span_bytes, span_or_empty, terminator, RawField,
};
use crate::hlist::BudgetView;
use crate::limits::Limits;
use crate::scalar::{method_error, tchar, WireVersion};
use crate::section::{section_cost, Field, SectionState};
use crate::text::{
    ascii, find_seq, is_ows, lemma_ascii, lemma_find_is, lemma_find_seq_is, lower_all, occurs_at,
};
use vstd::prelude::*;

verus! {

// ---- lines ----

/// Whether a line is not empty and holds neither CR nor LF.
pub open spec fn clean(line: Seq<u8>) -> bool {
    line.len() > 0 && forall|i: int|
        0 <= i < line.len() ==> #[trigger] line[i] != '\r' as u8 && line[i] != '\n' as u8
}

/// Whether all lines are clean.
pub open spec fn all_clean(lines: Seq<Seq<u8>>) -> bool {
    forall|i: int| 0 <= i < lines.len() ==> clean(#[trigger] lines[i])
}

/// Lines with a CR LF behind each.
pub open spec fn lines_text(lines: Seq<Seq<u8>>) -> Seq<u8>
    decreases lines.len(),
{
    if lines.len() == 0 {
        Seq::empty()
    } else {
        lines_text(lines.drop_last()) + lines.last() + crlf()
    }
}

/// Where a line starts.
pub open spec fn line_start(lines: Seq<Seq<u8>>, k: int) -> int {
    lines_text(lines.take(k)).len() as int
}

/// Where CR and LF stand in a text of clean lines.
proof fn lemma_lines_shape(lines: Seq<Seq<u8>>)
    requires
        all_clean(lines),
    ensures
        ({
            let s = lines_text(lines);
            let n = s.len();
            &&& forall|j: int|
                0 <= j < n && #[trigger] s[j] == '\r' as u8 ==> j + 1 < n && s[j + 1] == '\n' as u8
            &&& forall|j: int|
                0 <= j < n && #[trigger] s[j] == '\n' as u8 ==> j > 0 && s[j - 1] == '\r' as u8
            &&& forall|j: int|
                0 <= j < n - 2 && #[trigger] s[j] == '\r' as u8 ==> s[j + 2] != '\r' as u8
            &&& lines.len() > 0 ==> n >= 3 && s[n - 2] == '\r' as u8 && s[n - 1] == '\n' as u8
                && s[0] != '\r' as u8
        }),
    decreases lines.len(),
{
    if lines.len() > 0 {
        let rest = lines.drop_last();
        let line = lines.last();
        assert forall|i: int| 0 <= i < rest.len() implies clean(#[trigger] rest[i]) by {
            assert(clean(lines[i]));
        }
        assert(clean(lines[lines.len() - 1]));
        lemma_lines_shape(rest);
        let a = lines_text(rest);
        let s = lines_text(lines);
        let n = s.len() as int;
        let m = a.len() as int;
        let l = line.len() as int;
        assert(n == m + l + 2);
        assert forall|j: int| 0 <= j < m implies s[j] == a[j] by {}
        assert forall|j: int| m <= j < m + l implies s[j] == line[j - m] by {}
        assert(s[m + l] == '\r' as u8 && s[m + l + 1] == '\n' as u8);
        assert forall|j: int| 0 <= j < n && #[trigger] s[j] == '\r' as u8 implies j + 1 < n && s[j
            + 1] == '\n' as u8 by {
            if j < m {
                assert(a[j] == '\r' as u8);
                assert(s[j + 1] == a[j + 1]);
            } else if j < m + l {
                assert(line[j - m] == '\r' as u8);
            }
        }
        assert forall|j: int| 0 <= j < n && #[trigger] s[j] == '\n' as u8 implies j > 0 && s[j - 1]
            == '\r' as u8 by {
            if j < m {
                assert(a[j] == '\n' as u8);
                assert(s[j - 1] == a[j - 1]);
            } else if j < m + l {
                assert(line[j - m] == '\n' as u8);
            }
        }
        assert forall|j: int| 0 <= j < n - 2 && #[trigger] s[j] == '\r' as u8 implies s[j + 2]
            != '\r' as u8 by {
            if j < m - 2 {
                assert(a[j] == '\r' as u8);
                assert(s[j + 2] == a[j + 2]);
            } else if j < m {
                assert(a[j] == '\r' as u8);
                assert(j == m - 2);
                assert(s[j + 2] == line[0]);
            } else if j < m + l {
                assert(line[j - m] == '\r' as u8);
            }
        }
        if m == 0 {
            assert(s[0] == line[0]);
        } else {
            assert(rest.len() > 0);
        }
    }
}

/// Each line stands where it starts, with its CR LF behind it.
proof fn lemma_line_at(lines: Seq<Seq<u8>>, k: int)
    requires
        0 <= k < lines.len(),
    ensures
        line_start(lines, k + 1) == line_start(lines, k) + lines[k].len() + 2,
        line_start(lines, k + 1) <= lines_text(lines).len(),
        lines_text(lines).subrange(
            line_start(lines, k),
            line_start(lines, k) + lines[k].len(),
        ) == lines[k],
        lines_text(lines)[line_start(lines, k) + lines[k].len()] == '\r' as u8,
        lines_text(lines)[line_start(lines, k) + lines[k].len() + 1] == '\n' as u8,
    decreases lines.len(),
{
    let rest = lines.drop_last();
    let s = lines_text(lines);
    let a = lines_text(rest);
    if k + 1 == lines.len() {
        assert(lines.take(k) =~= rest);
        assert(lines.take(k + 1) =~= lines);
        assert(s.subrange(a.len() as int, (a.len() + lines[k].len()) as int) =~= lines[k]);
    } else {
        lemma_line_at(rest, k);
        assert(rest.take(k) =~= lines.take(k));
        assert(rest.take(k + 1) =~= lines.take(k + 1));
        let from = line_start(lines, k);
        let to = from + lines[k].len();
        assert(s.subrange(from, to) =~= a.subrange(from, to));
        assert(s[to] == a[to] && s[to + 1] == a[to + 1]);
    }
}

/// A text of clean lines ends, as a head, at the blank line behind them.
proof fn lemma_terminator_of_lines(lines: Seq<Seq<u8>>, limits: Limits)
    requires
        all_clean(lines),
        lines.len() > 0,
    ensures
        ({
            let t = lines_text(lines) + crlf();
            &&& terminator(t, limits) == Ok::<Option<int>, RejectReason>(
                Some(lines_text(lines).len() - 2),
            )
        }),
{
    let s = lines_text(lines);
    let t = s + crlf();
    let n = s.len() as int;
    lemma_lines_shape(lines);
    assert forall|j: int| 0 <= j < n implies t[j] == s[j] by {}
    assert(t[n] == '\r' as u8 && t[n + 1] == '\n' as u8);
    assert(t.subrange(n - 2, n + 2) =~= head_end());
    assert forall|j: int| 0 <= j < n - 2 implies !occurs_at(t, head_end(), j) by {
        if occurs_at(t, head_end(), j) {
            let w = t.subrange(j, j + 4);
            assert(w[0] == t[j] && w[2] == t[j + 2]);
            assert(s[j] == '\r' as u8);
        }
    }
    lemma_find_seq_is(t, head_end(), 0, n - 2);
    let region = t.take(n + 2);
    assert(region =~= t);
    lemma_bare_error(region, 0);
    assert forall|j: int| 0 <= j < region.len() implies #[trigger] bare_error_at(
        region,
        j,
    ) is None by {
        if j < n {
            if region[j] == '\r' as u8 {
                assert(s[j] == '\r' as u8);
                assert(region[j + 1] == s[j + 1]);
            }
            if region[j] == '\n' as u8 {
                assert(s[j] == '\n' as u8);
                assert(region[j - 1] == s[j - 1]);
            }
        }
    }
}

/// The end of each line is found from its start.
proof fn lemma_line_end_found(lines: Seq<Seq<u8>>, k: int)
    requires
        all_clean(lines),
        0 <= k < lines.len(),
    ensures
        find_seq(lines_text(lines) + crlf(), crlf(), line_start(lines, k)) == Some(
            line_start(lines, k) + lines[k].len(),
        ),
        (lines_text(lines) + crlf()).subrange(
            line_start(lines, k),
            line_start(lines, k) + lines[k].len(),
        ) == lines[k],
{
    let s = lines_text(lines);
    let t = s + crlf();
    let from = line_start(lines, k);
    let to = from + lines[k].len();
    lemma_line_at(lines, k);
    assert(clean(lines[k]));
    assert(t.subrange(from, to) =~= s.subrange(from, to));
    assert(t.subrange(to, to + 2) =~= crlf());
    assert forall|j: int| from <= j < to implies !occurs_at(t, crlf(), j) by {
        if occurs_at(t, crlf(), j) {
            let w = t.subrange(j, j + 2);
            assert(w[0] == t[j]);
            assert(t.subrange(from, to)[j - from] == t[j]);
            assert(lines[k][j - from] == '\r' as u8);
        }
    }
    lemma_find_seq_is(t, crlf(), from, to);
}

/// The field lines from line `k` on, each parsed where it stands.
pub open spec fn parsed_lines(
    lines: Seq<Seq<u8>>,
    k: int,
    limits: Limits,
    policy: UnderscorePolicy,
    budget: BudgetView,
) -> Result<Seq<RawField>, RejectReason>
    decreases lines.len() - k,
{
    if k >= lines.len() {
        Ok(Seq::empty())
    } else {
        match field_line(lines[k], line_start(lines, k), limits, policy, budget) {
            Err(e) => Err(e),
            Ok(f) => match parsed_lines(
                lines,
                k + 1,
                limits,
                policy,
                line_charged(lines[k], budget),
            ) {
                Err(e) => Err(e),
                Ok(rest) => Ok(seq![f] + rest),
            },
        }
    }
}

proof fn lemma_field_lines_of_lines(
    lines: Seq<Seq<u8>>,
    k: int,
    limits: Limits,
    policy: UnderscorePolicy,
    budget: BudgetView,
)
    requires
        all_clean(lines),
        0 <= k <= lines.len(),
        lines.len() > 0,
    ensures
        field_lines(
            lines_text(lines) + crlf(),
            line_start(lines, k),
            lines_text(lines).len() - 2,
            limits,
            policy,
            budget,
        ) == parsed_lines(lines, k, limits, policy, budget),
    decreases lines.len() - k,
{
    let n = lines_text(lines).len() as int;
    if k < lines.len() {
        assert(clean(lines[k]));
        lemma_line_at(lines, k);
        lemma_line_end_found(lines, k);
        lemma_field_lines_of_lines(lines, k + 1, limits, policy, line_charged(lines[k], budget));
    } else {
        assert(lines.take(k) =~= lines);
    }
}

// ---- fields ----

/// A field as it is written: its name, a colon and a space, and its value.
pub open spec fn wire_line(f: Field) -> Seq<u8> {
    f.name + seq![':' as u8, ' ' as u8] + f.value
}

/// Whether every byte of a name as written is acceptable, `_` not included.
pub open spec fn wire_name_ok(name: Seq<u8>) -> bool {
    name.len() > 0 && forall|i: int|
        0 <= i < name.len() ==> raw_name_byte_error(
            #[trigger] name[i],
            UnderscorePolicy::Reject,
        ) is None
}

/// Whether a field may be written.
pub open spec fn wire_ok(f: Field) -> bool {
    wire_name_ok(f.name) && all_value_bytes(f.value)
}

/// A written field as it is read: its name in canonical form, its value
/// without the OWS around it.
pub open spec fn read_field(f: Field) -> Field {
    Field { name: canonical_name(f.name), value: trim(f.value) }
}

/// Written fields as they are read.
pub open spec fn read_fields(fields: Seq<Field>) -> Seq<Field> {
    Seq::new(fields.len(), |i: int| read_field(fields[i]))
}

proof fn lemma_ows_from_shift(b: u8, v: Seq<u8>, i: int)
    requires
        0 <= i <= v.len(),
    ensures
        ows_from(seq![b] + v, i + 1) == ows_from(v, i) + 1,
    decreases v.len() - i,
{
    let s = seq![b] + v;
    if i < v.len() {
        assert(s[i + 1] == v[i]);
        if is_ows(v[i]) {
            lemma_ows_from_shift(b, v, i + 1);
        }
    }
}

proof fn lemma_ows_to_shift(b: u8, v: Seq<u8>, lo: int, end: int)
    requires
        0 <= lo <= end <= v.len(),
    ensures
        ows_to(seq![b] + v, lo + 1, end + 1) == ows_to(v, lo, end) + 1,
    decreases end - lo,
{
    let s = seq![b] + v;
    if end > lo {
        assert(s[end] == v[end - 1]);
        if is_ows(v[end - 1]) {
            lemma_ows_to_shift(b, v, lo, end - 1);
        }
    }
}

/// A space before a value changes nothing of what is read.
pub proof fn lemma_trim_space(v: Seq<u8>)
    ensures
        trim(seq![' ' as u8] + v) == trim(v),
{
    let s = seq![' ' as u8] + v;
    assert(s[0] == ' ' as u8);
    lemma_ows_from(v, 0);
    lemma_ows_from_shift(' ' as u8, v, 0);
    let a = ows_from(v, 0);
    assert(ows_from(s, 0) == a + 1);
    lemma_ows_to(v, a, v.len() as int);
    lemma_ows_to_shift(' ' as u8, v, a, v.len() as int);
    assert(s.subrange(a + 1, ows_to(v, a, v.len() as int) + 1) =~= v.subrange(
        a,
        ows_to(v, a, v.len() as int),
    ));
}

proof fn lemma_no_name_error(name: Seq<u8>, policy: UnderscorePolicy, i: int)
    requires
        wire_name_ok(name),
        0 <= i <= name.len(),
    ensures
        raw_name_error(name, policy, i) is None,
    decreases name.len() - i,
{
    if i < name.len() {
        assert(raw_name_byte_error(name[i], UnderscorePolicy::Reject) is None);
        lemma_no_name_error(name, policy, i + 1);
    }
}

/// A written field line is clean and is parsed as that field.
proof fn lemma_wire_line(
    f: Field,
    pos: int,
    limits: Limits,
    policy: UnderscorePolicy,
    budget: BudgetView,
)
    requires
        wire_ok(f),
        0 <= pos,
        pos + wire_line(f).len() <= u32::MAX,
        f.name.len() + trim(f.value).len() <= limits.max_field_line_bytes,
        budget.charge_result(f.name.len() as int, trim(f.value).len() as int) is Ok,
    ensures
        clean(wire_line(f)),
        field_line(wire_line(f), pos, limits, policy, budget) is Ok,
        line_charged(wire_line(f), budget) == budget.charged(
            f.name.len() as int,
            trim(f.value).len() as int,
        ),
        forall|buf: Seq<u8>|
            pos + wire_line(f).len() <= buf.len() && #[trigger] buf.subrange(
                pos,
                pos + wire_line(f).len(),
            ) == wire_line(f) ==> {
                let rf = field_line(
                    wire_line(f),
                    pos,
                    limits,
                    policy,
                    budget,
                )->Ok_0;
                &&& span_bytes(rf.name, buf) == Some(f.name)
                &&& span_bytes(rf.value, buf) == Some(trim(f.value))
            },
{
    let line = wire_line(f);
    let n = f.name.len() as int;
    let colon = ':' as u8;
    assert forall|j: int| 0 <= j < n implies line[j] == f.name[j] && line[j] != colon && !is_ows(
        line[j],
    ) && line[j] != '\r' as u8 && line[j] != '\n' as u8 by {
        assert(raw_name_byte_error(f.name[j], UnderscorePolicy::Reject) is None);
    }
    assert(line[n] == colon);
    lemma_find_is(line, colon, 0, n);
    assert(line_name(line) =~= f.name);
    assert(line_rest(line) =~= seq![' ' as u8] + f.value);
    lemma_trim_space(f.value);
    lemma_no_name_error(f.name, policy, 0);
    assert forall|j: int| 0 <= j < line.len() implies #[trigger] line[j] != '\r' as u8 && line[j]
        != '\n' as u8 by {
        if j > n + 1 {
            assert(line[j] == f.value[j - n - 2]);
        }
    }
    let rest = line_rest(line);
    let from = ows_from(rest, 0);
    let to = ows_to(rest, from, rest.len() as int);
    lemma_ows_from(rest, 0);
    lemma_ows_to(rest, from, rest.len() as int);
    lemma_ows_from(f.value, 0);
    lemma_ows_to(f.value, ows_from(f.value, 0), f.value.len() as int);
    assert(trim(f.value) == rest.subrange(from, to));
    assert(all_value_bytes(trim(f.value)));
    let rf = field_line(line, pos, limits, policy, budget)->Ok_0;
    assert forall|buf: Seq<u8>|
        pos + line.len() <= buf.len() && #[trigger] buf.subrange(pos, pos + line.len())
            == line implies span_bytes(rf.name, buf) == Some(f.name) && span_bytes(rf.value, buf)
        == Some(trim(f.value)) by {
        let w = buf.subrange(pos, pos + line.len());
        assert(buf.subrange(pos, pos + n) =~= w.subrange(0, n));
        assert(w.subrange(0, n) =~= f.name);
        assert(buf.subrange(pos + n + 1 + from, pos + n + 1 + to) =~= w.subrange(
            n + 1 + from,
            n + 1 + to,
        ));
        assert(w.subrange(n + 1 + from, n + 1 + to) =~= rest.subrange(from, to));
    }
}

/// What the first `i` fields cost, as a budget.
pub open spec fn budget_at(fields: Seq<Field>, i: int, limits: Limits) -> BudgetView {
    BudgetView {
        used: section_cost(fields.take(i)) as u64,
        limit: limits.max_header_list_bytes as u64,
        count: i as u32,
        max_count: limits.max_field_count,
    }
}

/// Whether a reader with these limits takes these fields.
pub open spec fn fields_fit(fields: Seq<Field>, limits: Limits) -> bool {
    &&& limits.within(Limits::ceiling_spec())
    &&& fields.len() <= limits.max_field_count
    &&& section_cost(fields) <= limits.max_header_list_bytes
    &&& forall|i: int|
        0 <= i < fields.len() ==> (#[trigger] fields[i]).name.len() + fields[i].value.len()
            <= limits.max_field_line_bytes
}

proof fn lemma_cost_take(fields: Seq<Field>, i: int)
    requires
        0 <= i <= fields.len(),
    ensures
        0 <= section_cost(fields.take(i)) <= section_cost(fields),
        i < fields.len() ==> section_cost(fields.take(i + 1)) == section_cost(fields.take(i))
            + fields[i].name.len() + fields[i].value.len() + 32,
    decreases fields.len() - i,
{
    if i < fields.len() {
        assert(fields.take(i + 1).drop_last() =~= fields.take(i));
        lemma_cost_take(fields, i + 1);
        lemma_cost_nonneg(fields.take(i));
    } else {
        assert(fields.take(i) =~= fields);
        lemma_cost_nonneg(fields);
    }
}

proof fn lemma_cost_nonneg(fields: Seq<Field>)
    ensures
        section_cost(fields) >= 0,
    decreases fields.len(),
{
    if fields.len() > 0 {
        lemma_cost_nonneg(fields.drop_last());
    }
}

pub proof fn lemma_budget_step(fields: Seq<Field>, i: int, limits: Limits)
    requires
        0 <= i < fields.len(),
        fields_fit(fields, limits),
    ensures
        budget_at(fields, i, limits).charge_result(
            fields[i].name.len() as int,
            fields[i].value.len() as int,
        ) is Ok,
        budget_at(fields, i, limits).charged(
            fields[i].name.len() as int,
            fields[i].value.len() as int,
        ) == budget_at(fields, i + 1, limits),
{
    lemma_cost_take(fields, i);
    lemma_cost_take(fields, i + 1);
}

/// Written field lines are parsed as those fields.
proof fn lemma_parsed_fields(
    lines: Seq<Seq<u8>>,
    fields: Seq<Field>,
    k: int,
    limits: Limits,
    policy: UnderscorePolicy,
)
    requires
        lines.len() == fields.len() + 1,
        0 <= k <= fields.len(),
        all_clean(lines),
        forall|i: int|
            0 <= i < fields.len() ==> wire_ok(#[trigger] fields[i]) && lines[i + 1] == wire_line(
                fields[i],
            ),
        fields_fit(read_fields(fields), limits),
        lines_text(lines).len() <= u32::MAX,
    ensures
        ({
            let r = parsed_lines(
                lines,
                k + 1,
                limits,
                policy,
                budget_at(read_fields(fields), k, limits),
            );
            let buf = lines_text(lines) + crlf();
            &&& r is Ok
            &&& (r->Ok_0).len() == fields.len() - k
            &&& forall|i: int|
                0 <= i < fields.len() - k ==> span_bytes((#[trigger] (r->Ok_0)[i]).name, buf)
                    == Some(fields[k + i].name) && span_bytes((r->Ok_0)[i].value, buf) == Some(
                    trim(fields[k + i].value),
                )
        }),
    decreases fields.len() - k,
{
    let read = read_fields(fields);
    let budget = budget_at(read, k, limits);
    let buf = lines_text(lines) + crlf();
    if k < fields.len() {
        let f = fields[k];
        let line = lines[k + 1];
        let pos = line_start(lines, k + 1);
        assert(wire_ok(f) && line == wire_line(f));
        assert(read[k].name.len() == f.name.len());
        assert(read[k].name.len() + read[k].value.len() <= limits.max_field_line_bytes);
        lemma_budget_step(read, k, limits);
        lemma_line_at(lines, k + 1);
        lemma_wire_line(f, pos, limits, policy, budget);
        lemma_line_end_found(lines, k + 1);
        lemma_parsed_fields(lines, fields, k + 1, limits, policy);
        let rf = field_line(line, pos, limits, policy, budget)->Ok_0;
        let rest = parsed_lines(lines, k + 2, limits, policy, line_charged(line, budget))->Ok_0;
        let r = parsed_lines(lines, k + 1, limits, policy, budget)->Ok_0;
        assert(r == seq![rf] + rest);
        assert(buf.subrange(pos, pos + line.len()) == line);
        assert forall|i: int| 0 <= i < fields.len() - k implies span_bytes(
            (#[trigger] r[i]).name,
            buf,
        ) == Some(fields[k + i].name) && span_bytes(r[i].value, buf) == Some(
            trim(fields[k + i].value),
        ) by {
            if i > 0 {
                assert(r[i] == rest[i - 1]);
            }
        }
    }
}

/// A canonical name needs no folding and is valid.
pub proof fn lemma_wire_name(name: Seq<u8>)
    requires
        wire_name_ok(name),
    ensures
        !underscore_refused(name, UnderscorePolicy::Reject),
        lower_all(name) == canonical_name(name),
        crate::field::name_error(canonical_name(name)) is None,
{
    assert forall|i: int| 0 <= i < name.len() implies #[trigger] name[i] != '_' as u8 by {
        assert(raw_name_byte_error(name[i], UnderscorePolicy::Reject) is None);
    }
    lemma_find_is(name, '_' as u8, 0, name.len() as int);
    assert(lower_all(name) =~= canonical_name(name));
    let c = canonical_name(name);
    law_valid_name(c);
    assert forall|j: int| 0 <= j < c.len() implies name_byte(#[trigger] c[j]) && c[j]
        != '_' as u8 by {
        assert(raw_name_byte_error(name[j], UnderscorePolicy::Reject) is None);
    }
}

/// The state of a section that holds the first `i` fields.
pub open spec fn section_at(fields: Seq<Field>, i: int, limits: Limits) -> SectionState {
    SectionState {
        fields: fields.take(i),
        wires: Seq::new(i as nat, |j: int| fields[j].name),
        budget: budget_at(fields, i, limits),
    }
}

/// Parsed field lines are compacted into the fields that were written.
proof fn lemma_compacted_fields(
    raw: Seq<RawField>,
    buf: Seq<u8>,
    fields: Seq<Field>,
    i: int,
    limits: Limits,
    policy: UnderscorePolicy,
)
    requires
        raw.len() == fields.len(),
        0 <= i <= fields.len(),
        forall|k: int| 0 <= k < fields.len() ==> wire_ok(#[trigger] fields[k]),
        forall|k: int|
            0 <= k < raw.len() ==> span_bytes((#[trigger] raw[k]).name, buf) == Some(
                fields[k].name,
            ) && span_bytes(raw[k].value, buf) == Some(trim(fields[k].value)),
        fields_fit(read_fields(fields), limits),
    ensures
        compact_from(
            section_at(read_fields(fields), i, limits),
            raw,
            i,
            buf,
            policy,
            WireVersion::Http11,
        ) == Ok::<SectionState, RejectReason>(
            section_at(read_fields(fields), fields.len() as int, limits),
        ),
    decreases fields.len() - i,
{
    let read = read_fields(fields);
    let st = section_at(read, i, limits);
    if i < fields.len() {
        let f = fields[i];
        assert(wire_ok(f));
        assert(span_bytes(raw[i].name, buf) == Some(f.name));
        lemma_wire_name(f.name);
        lemma_budget_step(read, i, limits);
        lemma_ows_from(f.value, 0);
        lemma_ows_to(f.value, ows_from(f.value, 0), f.value.len() as int);
        assert(all_value_bytes(trim(f.value)));
        assert(!st.collides(read[i].name, lower_all(f.name)));
        let next = section_at(read, i + 1, limits);
        assert(st.fields.push(read[i]) =~= next.fields);
        assert(st.wires.push(read[i].name) =~= next.wires);
        assert(st.added_raw(f.name, policy, trim(f.value), WireVersion::Http11) == next);
        lemma_compacted_fields(raw, buf, fields, i + 1, limits, policy);
    }
}

// ---- heads ----

/// A request line.
pub open spec fn request_line_text(method: Seq<u8>, target: Seq<u8>) -> Seq<u8> {
    method + seq![' ' as u8] + target + seq![' ' as u8] + ascii("HTTP/1.1"@)
}

/// Whether a target can stand in a request line.
pub open spec fn target_ok(target: Seq<u8>) -> bool {
    target.len() > 0 && forall|i: int|
        0 <= i < target.len() ==> 0x21 <= #[trigger] target[i] <= 0x7e && target[i] != '#' as u8
}

/// The lines of a request head.
pub open spec fn head_lines(method: Seq<u8>, target: Seq<u8>, fields: Seq<Field>) -> Seq<Seq<u8>> {
    message_lines(request_line_text(method, target), fields)
}

proof fn lemma_version_text()
    ensures
        ascii("HTTP/1.1"@) == seq![
            'H' as u8,
            'T' as u8,
            'T' as u8,
            'P' as u8,
            '/' as u8,
            '1' as u8,
            '.' as u8,
            '1' as u8,
        ],
{
    reveal_strlit("HTTP/1.1");
    lemma_ascii("HTTP/1.1"@);
    assert(ascii("HTTP/1.1"@) =~= seq![
        'H' as u8,
        'T' as u8,
        'T' as u8,
        'P' as u8,
        '/' as u8,
        '1' as u8,
        '.' as u8,
        '1' as u8,
    ]);
}

/// A written request line is parsed as its method, its target and HTTP/1.1.
proof fn lemma_request_line(method: Seq<u8>, target: Seq<u8>, limits: Limits)
    requires
        method_error(method, limits.max_method_bytes) is None,
        target_ok(target),
    ensures
        clean(request_line_text(method, target)),
        request_line(request_line_text(method, target), limits) == Ok::<
            (int, int, WireVersion),
            RejectReason,
        >((method.len() as int, (method.len() + 1 + target.len()) as int, WireVersion::Http11)),
{
    let line = request_line_text(method, target);
    let version = ascii("HTTP/1.1"@);
    lemma_version_text();
    let sp = ' ' as u8;
    let a = method.len() as int;
    let b = a + 1 + target.len();
    assert forall|j: int| 0 <= j < a implies #[trigger] line[j] == method[j] && tchar(line[j]) by {
        assert(tchar(method[j]));
    }
    assert(line[a] == sp && line[b] == sp);
    assert forall|j: int| a < j < b implies #[trigger] line[j] == target[j - a - 1] && line[j] != sp
        && line[j] >= 0x21 && line[j] != '#' as u8 by {
        assert(0x21 <= target[j - a - 1]);
    }
    assert forall|j: int| b < j < line.len() implies #[trigger] line[j] == version[j - b - 1]
        && line[j] != sp && line[j] >= 0x21 by {}
    lemma_find_is(line, '\t' as u8, 0, line.len() as int);
    lemma_find_is(line, sp, 0, a);
    lemma_find_is(line, sp, a + 1, b);
    lemma_find_is(line, sp, b + 1, line.len() as int);
    assert(line.take(a) =~= method);
    assert(line.subrange(a + 1, b) =~= target);
    assert(line.skip(b + 1) =~= version);
    lemma_find_is(target, '#' as u8, 0, target.len() as int);
}

/// A first line and the lines of fields.
pub open spec fn message_lines(line: Seq<u8>, fields: Seq<Field>) -> Seq<Seq<u8>> {
    seq![line] + Seq::new(fields.len(), |i: int| wire_line(fields[i]))
}

/// A written head ends where it was ended; its first line is found, and its
/// fields are parsed and compacted as they were written.
pub proof fn lemma_lines_read_back(
    line: Seq<u8>,
    fields: Seq<Field>,
    limits: Limits,
    policy: UnderscorePolicy,
)
    requires
        clean(line),
        forall|k: int| 0 <= k < fields.len() ==> wire_ok(#[trigger] fields[k]),
        fields_fit(read_fields(fields), limits),
        lines_text(message_lines(line, fields)).len() <= u32::MAX,
    ensures
        ({
            let text = lines_text(message_lines(line, fields)) + crlf();
            let raw = field_lines(
                text,
                line.len() as int + 2,
                text.len() - 4,
                limits,
                policy,
                BudgetView::fresh(limits.max_header_list_bytes, limits.max_field_count),
            );
            &&& terminator(text, limits) == Ok::<Option<int>, RejectReason>(Some(text.len() - 4))
            &&& find_seq(text, crlf(), 0) == Some(line.len() as int)
            &&& line.len() <= text.len()
            &&& text.take(line.len() as int) == line
            &&& raw is Ok
            &&& compacted(
                raw->Ok_0,
                text,
                policy,
                WireVersion::Http11,
                limits,
            ) == Ok::<Seq<Field>, RejectReason>(read_fields(fields))
        }),
{
    let lines = message_lines(line, fields);
    let s = lines_text(lines);
    let text = s + crlf();
    let read = read_fields(fields);
    assert forall|i: int| 0 <= i < lines.len() implies clean(#[trigger] lines[i]) by {
        if i > 0 {
            lemma_wire_clean(fields[i - 1]);
        }
    }
    lemma_terminator_of_lines(lines, limits);
    assert(lines.take(0) =~= Seq::<Seq<u8>>::empty());
    assert(line_start(lines, 0) == 0);
    assert(lines[0] == line);
    lemma_line_at(lines, 0);
    lemma_line_end_found(lines, 0);
    assert(text.subrange(0, line.len() as int) =~= text.take(line.len() as int));
    let fresh = BudgetView::fresh(limits.max_header_list_bytes, limits.max_field_count);
    assert(read.take(0) =~= Seq::<Field>::empty());
    assert(fresh == budget_at(read, 0, limits));
    lemma_field_lines_of_lines(lines, 1, limits, policy, fresh);
    assert forall|i: int| 0 <= i < fields.len() implies wire_ok(#[trigger] fields[i]) && lines[i
        + 1] == wire_line(fields[i]) by {}
    lemma_parsed_fields(lines, fields, 0, limits, policy);
    let raw = parsed_lines(lines, 1, limits, policy, fresh)->Ok_0;
    lemma_compacted_fields(raw, text, fields, 0, limits, policy);
    let st = section_at(read, 0, limits);
    assert(st.fields =~= SectionState::fresh(limits).fields);
    assert(st.wires =~= SectionState::fresh(limits).wires);
    assert(read.take(fields.len() as int) =~= read);
}

/// A written request head is parsed as its method, its target and its fields,
/// over its whole length, and its fields are compacted as they were written.
pub proof fn lemma_head_reads_back(
    method: Seq<u8>,
    target: Seq<u8>,
    fields: Seq<Field>,
    limits: Limits,
    policy: UnderscorePolicy,
)
    requires
        method_error(method, limits.max_method_bytes) is None,
        target_ok(target),
        request_line_text(method, target).len() + 2 <= limits.max_request_line_bytes,
        forall|k: int| 0 <= k < fields.len() ==> wire_ok(#[trigger] fields[k]),
        fields_fit(read_fields(fields), limits),
        lines_text(head_lines(method, target, fields)).len() <= u32::MAX,
    ensures
        ({
            let text = lines_text(head_lines(method, target, fields)) + crlf();
            let r = request_head(text, limits, policy);
            &&& r matches Ok(Some(_))
            &&& (r->Ok_0->Some_0).1 == text.len()
            &&& (r->Ok_0->Some_0).0.version is Http11
            &&& span_or_empty((r->Ok_0->Some_0).0.method, text) == method
            &&& span_or_empty((r->Ok_0->Some_0).0.target, text) == target
            &&& compacted(
                (r->Ok_0->Some_0).0.fields,
                text,
                policy,
                WireVersion::Http11,
                limits,
            ) == Ok::<Seq<Field>, RejectReason>(read_fields(fields))
        }),
{
    let line = request_line_text(method, target);
    let text = lines_text(head_lines(method, target, fields)) + crlf();
    lemma_request_line(method, target, limits);
    lemma_lines_read_back(line, fields, limits, policy);
    let a = method.len() as int;
    let b = a + 1 + target.len();
    assert(line.take(a) =~= method);
    assert(line.subrange(a + 1, b) =~= target);
    assert(text.subrange(0, a) =~= line.take(a));
    assert(text.subrange(a + 1, b) =~= line.subrange(a + 1, b));
}

pub proof fn lemma_wire_clean(f: Field)
    requires
        wire_ok(f),
    ensures
        clean(wire_line(f)),
{
    let line = wire_line(f);
    let n = f.name.len() as int;
    assert forall|j: int| 0 <= j < line.len() implies #[trigger] line[j] != '\r' as u8 && line[j]
        != '\n' as u8 by {
        if j < n {
            assert(raw_name_byte_error(f.name[j], UnderscorePolicy::Reject) is None);
        } else if j > n + 1 {
            assert(line[j] == f.value[j - n - 2]);
        }
    }
}

} // verus!
