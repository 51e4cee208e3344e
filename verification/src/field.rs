//! The two byte classes that decide whether a field name and a field value
//! are acceptable, the OWS trimmer and the name normalizer.
//!
//! The rules are the same for HTTP/1, HTTP/2 and HTTP/3: a field that one
//! protocol accepts and another refuses lets two readers disagree about a
//! message. `_` is a legal `tchar`, but some readers fold it into `-`, so it
//! is refused in a field name.
use crate::error::RejectReason;
use crate::scalar::{tchar, WireVersion};
use crate::text::{
    digit, find, is_digit, is_lower, is_ows, is_upper, lemma_find_is, lower, lower_all, ows,
    to_lower, upper,
};
use vstd::prelude::*;

verus! {

/// A byte of a canonical (lowercase) field name: one of the 51 bytes
/// ``!#$%&'*+-.^_`|~``, `0-9` and `a-z`.
pub open spec fn name_byte(b: u8) -> bool {
    ||| is_digit(b)
    ||| is_lower(b)
    ||| b == '!' as u8
    ||| b == '#' as u8
    ||| b == '$' as u8
    ||| b == '%' as u8
    ||| b == '&' as u8
    ||| b == '\'' as u8
    ||| b == '*' as u8
    ||| b == '+' as u8
    ||| b == '-' as u8
    ||| b == '.' as u8
    ||| b == '^' as u8
    ||| b == '_' as u8
    ||| b == '`' as u8
    ||| b == '|' as u8
    ||| b == '~' as u8
}

/// A byte of a field value: anything but NUL, LF and CR.
pub open spec fn value_byte(b: u8) -> bool {
    b != 0 && b != '\n' as u8 && b != '\r' as u8
}

/// What to do with `_` in a field name on the way in.
#[derive(Copy, Clone, Debug, PartialEq, Eq, Structural)]
pub enum UnderscorePolicy {
    /// Refuse the field. The default.
    Reject,
    /// Map `_` to `-` before any comparison, so that an underscore variant
    /// cannot survive the removal of the hyphen form. Two wire names then
    /// become one; a section that holds both is refused.
    MapToHyphen,
}

impl Default for UnderscorePolicy {
    fn default() -> (r: Self)
        ensures
            r == UnderscorePolicy::Reject,
    {
        UnderscorePolicy::Reject
    }
}

/// What is wrong with one byte of a name in canonical form.
pub open spec fn name_byte_error(b: u8) -> Option<RejectReason> {
    if is_upper(b) {
        Some(RejectReason::FieldNameUppercase)
    } else if b == '_' as u8 {
        Some(RejectReason::FieldNameUnderscore)
    } else if !name_byte(b) {
        Some(RejectReason::FieldNameInvalidByte)
    } else {
        None
    }
}

/// What is wrong with the first bad byte at or after `i`.
pub open spec fn name_error_from(name: Seq<u8>, i: int) -> Option<RejectReason>
    decreases name.len() - i,
{
    if i >= name.len() {
        None
    } else if name_byte_error(name[i]) is Some {
        name_byte_error(name[i])
    } else {
        name_error_from(name, i + 1)
    }
}

/// What is wrong with a name in canonical form: it is empty, or the first of
/// its bad bytes says.
pub open spec fn name_error(name: Seq<u8>) -> Option<RejectReason> {
    if name.len() == 0 {
        Some(RejectReason::FieldNameEmpty)
    } else {
        name_error_from(name, 0)
    }
}

/// Validates a field name that is already in canonical form. The rules do not
/// depend on the version.
pub fn validate_name(name: &[u8], version: WireVersion) -> (r: Result<(), RejectReason>)
    ensures
        match r {
            Ok(()) => name_error(name@) is None,
            Err(e) => name_error(name@) == Some(e),
        },
{
    if name.len() == 0 {
        return Err(RejectReason::FieldNameEmpty);
    }
    let mut i: usize = 0;
    while i < name.len()
        invariant
            i <= name@.len(),
            name_error_from(name@, 0) == name_error_from(name@, i as int),
        decreases name@.len() - i,
    {
        let b: u8 = name[i];
        if upper(b) {
            return Err(RejectReason::FieldNameUppercase);
        }
        if b == '_' as u8 {
            return Err(RejectReason::FieldNameUnderscore);
        }
        if !name_byte_ok(b) {
            return Err(RejectReason::FieldNameInvalidByte);
        }
        i += 1;
    }
    Ok(())
}

/// Whether every byte of `s` may stand in a field value.
pub open spec fn all_value_bytes(s: Seq<u8>) -> bool {
    forall|i: int| 0 <= i < s.len() ==> value_byte(#[trigger] s[i])
}

/// What is wrong with a field value: a forbidden byte, or, on a multiplexed
/// protocol, SP or HTAB at either end.
pub open spec fn value_error(value: Seq<u8>, version: WireVersion) -> Option<RejectReason> {
    if !all_value_bytes(value) {
        Some(RejectReason::FieldValueInvalidByte)
    } else if version.is_multiplexed_spec() && value.len() > 0 && is_ows(value[0]) {
        Some(RejectReason::FieldValueLeadingWhitespace)
    } else if version.is_multiplexed_spec() && value.len() > 0 && is_ows(value.last()) {
        Some(RejectReason::FieldValueTrailingWhitespace)
    } else {
        None
    }
}

/// Validates a field value. An empty value is valid on every version.
pub fn validate_value(value: &[u8], version: WireVersion) -> (r: Result<(), RejectReason>)
    ensures
        match r {
            Ok(()) => value_error(value@, version) is None,
            Err(e) => value_error(value@, version) == Some(e),
        },
{
    let mut i: usize = 0;
    while i < value.len()
        invariant
            i <= value@.len(),
            forall|j: int| 0 <= j < i ==> value_byte(#[trigger] value@[j]),
        decreases value@.len() - i,
    {
        if !value_byte_ok(value[i]) {
            return Err(RejectReason::FieldValueInvalidByte);
        }
        i += 1;
    }
    if version.is_multiplexed() && value.len() > 0 {
        if ows(value[0]) {
            return Err(RejectReason::FieldValueLeadingWhitespace);
        }
        if ows(value[value.len() - 1]) {
            return Err(RejectReason::FieldValueTrailingWhitespace);
        }
    }
    Ok(())
}

/// The first position at or after `i` that is past the OWS there.
pub open spec fn ows_from(s: Seq<u8>, i: int) -> int
    decreases s.len() - i,
{
    if i < s.len() && is_ows(s[i]) {
        ows_from(s, i + 1)
    } else {
        i
    }
}

/// The position, not before `lo`, at which the OWS that ends before `end`
/// begins.
pub open spec fn ows_to(s: Seq<u8>, lo: int, end: int) -> int
    decreases end - lo,
{
    if end > lo && is_ows(s[end - 1]) {
        ows_to(s, lo, end - 1)
    } else {
        end
    }
}

/// `s` without the SP and HTAB at its ends.
pub open spec fn trim(s: Seq<u8>) -> Seq<u8> {
    s.subrange(ows_from(s, 0), ows_to(s, ows_from(s, 0), s.len() as int))
}

pub proof fn lemma_ows_from(s: Seq<u8>, i: int)
    requires
        0 <= i <= s.len(),
    ensures
        i <= ows_from(s, i) <= s.len(),
        ows_from(s, i) < s.len() ==> !is_ows(s[ows_from(s, i)]),
        forall|j: int| i <= j < ows_from(s, i) ==> is_ows(#[trigger] s[j]),
    decreases s.len() - i,
{
    if i < s.len() && is_ows(s[i]) {
        lemma_ows_from(s, i + 1);
    }
}

pub proof fn lemma_ows_to(s: Seq<u8>, lo: int, end: int)
    requires
        0 <= lo <= end <= s.len(),
    ensures
        lo <= ows_to(s, lo, end) <= end,
        ows_to(s, lo, end) > lo ==> !is_ows(s[ows_to(s, lo, end) - 1]),
        forall|j: int| ows_to(s, lo, end) <= j < end ==> is_ows(#[trigger] s[j]),
    decreases end - lo,
{
    if end > lo && is_ows(s[end - 1]) {
        lemma_ows_to(s, lo, end - 1);
    }
}

/// The bounds of what [`trim_ows`] keeps.
pub(crate) fn trim_bounds(value: &[u8]) -> (r: (usize, usize))
    ensures
        r.0 == ows_from(value@, 0),
        r.1 == ows_to(value@, r.0 as int, value@.len() as int),
        r.0 <= r.1 <= value@.len(),
        trim(value@) == value@.subrange(r.0 as int, r.1 as int),
{
    let mut start: usize = 0;
    while start < value.len() && ows(value[start])
        invariant
            start <= value@.len(),
            ows_from(value@, 0) == ows_from(value@, start as int),
        decreases value@.len() - start,
    {
        start += 1;
    }
    let mut end: usize = value.len();
    while end > start && ows(value[end - 1])
        invariant
            start <= end <= value@.len(),
            ows_to(value@, start as int, value@.len() as int) == ows_to(
                value@,
                start as int,
                end as int,
            ),
        decreases end,
    {
        end -= 1;
    }
    (start, end)
}

/// Removes leading and trailing SP and HTAB, and nothing else.
#[must_use]
pub fn trim_ows(value: &[u8]) -> (r: &[u8])
    ensures
        r@ == trim(value@),
{
    let (start, end) = trim_bounds(value);
    vstd::slice::slice_subrange(value, start, end)
}

/// Trimming takes a contiguous part whose ends are neither SP nor HTAB, and
/// drops nothing but SP and HTAB.
pub proof fn law_trim_shape(s: Seq<u8>)
    ensures
        exists|a: int, b: int|
            0 <= a <= b <= s.len() && trim(s) == #[trigger] s.subrange(a, b) && (forall|j: int|
                0 <= j < a || b <= j < s.len() ==> is_ows(#[trigger] s[j])),
        trim(s).len() > 0 ==> !is_ows(trim(s)[0]) && !is_ows(trim(s).last()),
{
    let a = ows_from(s, 0);
    lemma_ows_from(s, 0);
    let b = ows_to(s, a, s.len() as int);
    lemma_ows_to(s, a, s.len() as int);
    assert(trim(s) == s.subrange(a, b));
}

/// A string with neither SP nor HTAB at its ends is its own trim.
pub proof fn lemma_trim_id(s: Seq<u8>)
    requires
        s.len() > 0 ==> !is_ows(s[0]) && !is_ows(s.last()),
    ensures
        trim(s) == s,
{
    assert(trim(s) =~= s);
}

/// Trimming twice is trimming once.
pub proof fn law_trim_idempotent(s: Seq<u8>)
    ensures
        trim(trim(s)) == trim(s),
{
    law_trim_shape(s);
    lemma_trim_id(trim(s));
}

/// One byte of a field name in canonical form.
pub open spec fn canonical_byte(b: u8) -> u8 {
    if b == '_' as u8 {
        '-' as u8
    } else {
        lower(b)
    }
}

/// A field name in canonical form: lowercase, `_` mapped to `-`.
pub open spec fn canonical_name(raw: Seq<u8>) -> Seq<u8> {
    Seq::new(raw.len(), |i: int| canonical_byte(raw[i]))
}

/// Whether `policy` refuses the `_` in a name.
pub open spec fn underscore_refused(raw: Seq<u8>, policy: UnderscorePolicy) -> bool {
    policy is Reject && find(raw, '_' as u8, 0) < raw.len()
}

/// Lowercases `raw` into the front of `out`, applying `policy` to `_`.
///
/// The name is written as it is read: a refused `_` leaves what stands before
/// it written, and the caller discards `out`.
pub fn normalize_name_into(raw: &[u8], policy: UnderscorePolicy, out: &mut [u8]) -> (r: Result<
    usize,
    RejectReason,
>)
    ensures
        final(out)@.len() == old(out)@.len(),
        match r {
            Ok(n) => n == raw@.len() && raw@.len() <= old(out)@.len() && !underscore_refused(
                raw@,
                policy,
            ) && final(out)@ == canonical_name(raw@) + old(out)@.skip(n as int),
            Err(e) => if old(out)@.len() < raw@.len() {
                e == RejectReason::FieldNameInvalidByte && final(out)@ == old(out)@
            } else {
                &&& underscore_refused(raw@, policy)
                &&& e == RejectReason::FieldNameUnderscore
                &&& final(out)@ == lower_all(raw@.take(find(raw@, '_' as u8, 0))) + old(out)@.skip(
                    find(raw@, '_' as u8, 0),
                )
            },
        },
{
    if out.len() < raw.len() {
        return Err(RejectReason::FieldNameInvalidByte);
    }
    let mut i: usize = 0;
    while i < raw.len()
        invariant
            i <= raw@.len() <= out@.len(),
            out@.len() == old(out)@.len(),
            forall|j: int| 0 <= j < i ==> out@[j] == canonical_byte(raw@[j]),
            forall|j: int| i <= j < out@.len() ==> out@[j] == old(out)@[j],
            policy is Reject ==> forall|j: int| 0 <= j < i ==> raw@[j] != '_' as u8,
        decreases raw@.len() - i,
    {
        let mut b: u8 = to_lower(raw[i]);
        if b == '_' as u8 {
            match policy {
                UnderscorePolicy::Reject => {
                    proof {
                        lemma_find_is(raw@, '_' as u8, 0, i as int);
                        assert(out@ =~= lower_all(raw@.take(i as int)) + old(out)@.skip(i as int));
                    }
                    return Err(RejectReason::FieldNameUnderscore);
                },
                UnderscorePolicy::MapToHyphen => {
                    b = '-' as u8;
                },
            }
        }
        out[i] = b;
        i += 1;
    }
    proof {
        if policy is Reject {
            lemma_find_is(raw@, '_' as u8, 0, i as int);
        }
        assert(out@ =~= canonical_name(raw@) + old(out)@.skip(i as int));
    }
    Ok(raw.len())
}

/// Whether `b` may stand in a canonical field name.
#[must_use]
pub fn name_byte_ok(b: u8) -> (r: bool)
    ensures
        r == name_byte(b),
{
    digit(b) || 'a' as u8 <= b && b <= 'z' as u8 || b == '!' as u8 || b == '#' as u8 || b
        == '$' as u8 || b == '%' as u8 || b == '&' as u8 || b == '\'' as u8 || b == '*' as u8 || b
        == '+' as u8 || b == '-' as u8 || b == '.' as u8 || b == '^' as u8 || b == '_' as u8 || b
        == '`' as u8 || b == '|' as u8 || b == '~' as u8
}

/// Whether `b` may stand in a field value.
#[must_use]
pub fn value_byte_ok(b: u8) -> (r: bool)
    ensures
        r == value_byte(b),
{
    b != 0 && b != '\n' as u8 && b != '\r' as u8
}

/// The bytes of a canonical name are the token bytes without the uppercase
/// letters.
pub proof fn law_name_byte_is_lowercase_tchar(b: u8)
    ensures
        name_byte(b) == (tchar(b) && !is_upper(b)),
{
}

/// Every name byte is also a value byte.
pub proof fn law_name_bytes_are_value_bytes(b: u8)
    requires
        name_byte(b),
    ensures
        value_byte(b),
{
}

proof fn lemma_name_error_from(name: Seq<u8>, i: int)
    requires
        0 <= i <= name.len(),
    ensures
        name_error_from(name, i) is None <==> forall|j: int|
            i <= j < name.len() ==> name_byte_error(#[trigger] name[j]) is None,
    decreases name.len() - i,
{
    if i < name.len() {
        lemma_name_error_from(name, i + 1);
        if name_error_from(name, i) is None {
            assert forall|j: int| i <= j < name.len() implies name_byte_error(
                #[trigger] name[j],
            ) is None by {
                if j > i {
                }
            }
        } else if name_byte_error(name[i]) is None {
            assert(exists|j: int|
                i + 1 <= j < name.len() && name_byte_error(#[trigger] name[j]) is Some);
        }
    }
}

/// A name is valid exactly if it is not empty and holds nothing but canonical
/// name bytes other than `_`.
pub proof fn law_valid_name(name: Seq<u8>)
    ensures
        name_error(name) is None <==> name.len() > 0 && forall|j: int|
            0 <= j < name.len() ==> name_byte(#[trigger] name[j]) && name[j] != '_' as u8,
{
    lemma_name_error_from(name, 0);
    if name_error(name) is None {
        assert forall|j: int| 0 <= j < name.len() implies name_byte(#[trigger] name[j]) && name[j]
            != '_' as u8 by {
            assert(name_byte_error(name[j]) is None);
        }
    }
}

/// Names that differ only in case and in `_` for `-` are one canonical name,
/// so that an underscore variant of a field is that field.
pub proof fn law_underscore_variant_is_the_same_name(a: Seq<u8>, b: Seq<u8>)
    requires
        a.len() == b.len(),
        forall|i: int|
            0 <= i < a.len() ==> lower(#[trigger] a[i]) == lower(b[i]) || (a[i] == '_' as u8 || a[i]
                == '-' as u8) && (b[i] == '_' as u8 || b[i] == '-' as u8),
    ensures
        canonical_name(a) == canonical_name(b),
{
    assert forall|i: int| 0 <= i < a.len() implies canonical_byte(#[trigger] a[i])
        == canonical_byte(b[i]) by {}
    assert(canonical_name(a) =~= canonical_name(b));
}

/// Bringing a name into canonical form twice is doing it once.
pub proof fn law_canonical_name_idempotent(a: Seq<u8>)
    ensures
        canonical_name(canonical_name(a)) == canonical_name(a),
{
    assert(canonical_name(canonical_name(a)) =~= canonical_name(a));
}

} // verus!
