//! Byte classes, numbers, and taking texts apart.
use crate::authority::{host_byte, literal_byte};
use crate::field::{canonical_byte, lemma_ows_from, lemma_ows_to, name_byte, ows_from, trim, value_byte};
use crate::h1::chunked::ext_top_byte;
use crate::num::{all_digits, dec_value, hex_number};
use crate::path::{path_byte, query_byte};
use crate::scalar::tchar;
use crate::text::{
    find, find_seq, hex_value, is_digit, is_hex, is_lower, is_ows, is_upper, joined, lemma_find,
    lower, lower_all, occurs_at, split, split_from,
};
use vstd::prelude::*;

verus! {

// ---- classes ----

/// The digits, letters and whitespace, by their codes.
pub proof fn law_letters_and_digits(b: u8)
    ensures
        is_digit(b) <==> 48 <= b <= 57,
        is_upper(b) <==> 65 <= b <= 90,
        is_lower(b) <==> 97 <= b <= 122,
        is_ows(b) <==> b == 32 || b == 9,
        lower(b) == if 65 <= b <= 90 {
            (b + 32) as u8
        } else {
            b
        },
        canonical_byte(b) == if b == 95 {
            45u8
        } else {
            lower(b)
        },
{
}

/// The sixteen digits of base 16, in either case; no other byte is one.
pub proof fn law_hex_digits(b: u8)
    ensures
        is_hex(b) <==> 48 <= b <= 57 || 65 <= b <= 70 || 97 <= b <= 102,
        48 <= b <= 57 ==> hex_value(b) == b - 48,
        65 <= b <= 70 ==> hex_value(b) == b - 55,
        97 <= b <= 102 ==> hex_value(b) == b - 87,
        hex_value('0' as u8) == 0,
        hex_value('9' as u8) == 9,
        hex_value('a' as u8) == 10 && hex_value('A' as u8) == 10,
        hex_value('f' as u8) == 15 && hex_value('F' as u8) == 15,
{
}

/// A token holds letters, digits and fifteen marks; a field name in canonical
/// form the same without capitals; a value anything but NUL, CR and LF.
pub proof fn law_token_bytes(b: u8)
    ensures
        tchar(b) <==> 48 <= b <= 57 || 65 <= b <= 90 || 97 <= b <= 122 || b == 33 || 35 <= b <= 39
            || b == 42 || b == 43 || b == 45 || b == 46 || 94 <= b <= 96 || b == 124 || b == 126,
        name_byte(b) <==> tchar(b) && !(65 <= b <= 90),
        value_byte(b) <==> b != 0 && b != 10 && b != 13,
        ext_top_byte(b) <==> tchar(b) || b == 61 || b == 32 || b == 9,
{
}

/// The bytes of hosts, of bracketed literals, of paths and of queries.
pub proof fn law_target_bytes(b: u8)
    ensures
        host_byte(b) <==> 48 <= b <= 57 || 65 <= b <= 90 || 97 <= b <= 122 || b == 33 || b == 36
            || 37 <= b <= 46 || b == 58 || b == 59 || b == 61 || b == 91 || b == 93 || b == 95 || b
            == 126,
        literal_byte(b) <==> 48 <= b <= 57 || 65 <= b <= 70 || 97 <= b <= 102 || b == 58 || b == 46,
        path_byte(b) <==> 48 <= b <= 57 || 65 <= b <= 90 || 97 <= b <= 122 || b == 33 || b == 36
            || 38 <= b <= 47 || b == 58 || b == 59 || b == 61 || b == 64 || b == 95 || b == 126,
        query_byte(b) <==> 33 <= b <= 126 && b != 35,
{
}

// ---- numbers ----

/// A number in base 10 grows by one digit at its end.
pub proof fn law_decimal_digit_appended(s: Seq<u8>, b: u8)
    requires
        48 <= b <= 57,
    ensures
        dec_value(s.push(b)) == dec_value(s) * 10 + (b - 48),
        dec_value(Seq::empty()) == 0,
        all_digits(s.push(b)) <==> all_digits(s),
        all_digits(Seq::empty()),
{
    assert(s.push(b).drop_last() =~= s);
    if all_digits(s.push(b)) {
        assert forall|i: int| 0 <= i < s.len() implies is_digit(#[trigger] s[i]) by {
            assert(s.push(b)[i] == s[i]);
        }
    }
}

/// No text with another byte in it is a number.
pub proof fn law_only_digits_are_a_number(s: Seq<u8>, i: int)
    requires
        0 <= i < s.len(),
        !(48 <= s[i] <= 57),
    ensures
        !all_digits(s),
{
    assert(!is_digit(s[i]));
}

/// A number in base 16 grows by one digit at its end.
pub proof fn law_hex_digit_appended(s: Seq<u8>, b: u8)
    ensures
        48 <= b <= 57 ==> hex_number(s.push(b)) == hex_number(s) * 16 + (b - 48),
        65 <= b <= 70 ==> hex_number(s.push(b)) == hex_number(s) * 16 + (b - 55),
        97 <= b <= 102 ==> hex_number(s.push(b)) == hex_number(s) * 16 + (b - 87),
        hex_number(Seq::empty()) == 0,
{
    assert(s.push(b).drop_last() =~= s);
}

// ---- texts ----

/// Whether every byte is SP or HTAB.
pub open spec fn blank(s: Seq<u8>) -> bool {
    forall|i: int| 0 <= i < s.len() ==> #[trigger] s[i] == 32 || s[i] == 9
}

/// Whether a text is empty or has neither SP nor HTAB at its ends.
pub open spec fn tight(s: Seq<u8>) -> bool {
    s.len() > 0 ==> s[0] != 32 && s[0] != 9 && s.last() != 32 && s.last() != 9
}

/// Trimming takes off the whitespace at both ends and nothing else: what is
/// tight between blanks is what remains.
pub proof fn law_trim_takes_blanks(a: Seq<u8>, s: Seq<u8>, b: Seq<u8>)
    requires
        blank(a),
        blank(b),
        tight(s),
    ensures
        trim(a + s + b) == s,
{
    let t = a + s + b;
    let n = a.len() as int;
    let m = n + s.len();
    assert forall|i: int| 0 <= i < n implies is_ows(t[i]) by {
        assert(t[i] == a[i]);
    }
    assert forall|i: int| m <= i < t.len() implies is_ows(t[i]) by {
        assert(t[i] == b[i - m]);
    }
    let from = ows_from(t, 0);
    lemma_ows_from(t, 0);
    lemma_ows_to(t, from, t.len() as int);
    let to = crate::field::ows_to(t, from, t.len() as int);
    if s.len() > 0 {
        assert(t[n] == s[0] && t[m - 1] == s.last());
        assert(from == n);
        assert(to == m);
        assert(trim(t) =~= s);
    } else {
        if from < t.len() {
            assert(is_ows(t[from]));
        }
        assert(trim(t) =~= s);
    }
}

/// A text is tight once it is trimmed.
pub proof fn law_trimmed_is_tight(s: Seq<u8>)
    ensures
        tight(trim(s)),
{
    let from = ows_from(s, 0);
    lemma_ows_from(s, 0);
    lemma_ows_to(s, from, s.len() as int);
}

/// A byte is found where it stands first, and at the end where it does not
/// stand at all.
pub proof fn law_find_is_first(s: Seq<u8>, b: u8, from: int)
    requires
        0 <= from <= s.len(),
    ensures
        from <= find(s, b, from) <= s.len(),
        find(s, b, from) < s.len() ==> s[find(s, b, from)] == b,
        forall|j: int| from <= j < find(s, b, from) ==> s[j] != b,
{
    lemma_find(s, b, from);
}

/// A text is found where it stands first, and nowhere if it does not stand
/// there at all.
pub proof fn law_find_seq_is_first(s: Seq<u8>, needle: Seq<u8>)
    requires
        needle.len() > 0,
    ensures
        match find_seq(s, needle, 0) {
            Some(i) => 0 <= i && i + needle.len() <= s.len() && s.subrange(i, i + needle.len())
                == needle && forall|j: int|
                0 <= j < i && j + needle.len() <= s.len() ==> #[trigger] s.subrange(
                    j,
                    j + needle.len(),
                ) != needle,
            None => forall|j: int|
                0 <= j && j + needle.len() <= s.len() ==> #[trigger] s.subrange(
                    j,
                    j + needle.len(),
                ) != needle,
        },
{
    crate::text::lemma_find_seq(s, needle, 0);
    assert forall|j: int|
        0 <= j && j + needle.len() <= s.len() && #[trigger] s.subrange(j, j + needle.len())
            == needle implies occurs_at(s, needle, j) by {}
}

/// Splitting at a separator loses nothing: the parts with the separator between
/// them are the text, and no part holds it.
pub proof fn law_split_parts_join(s: Seq<u8>, sep: u8)
    ensures
        joined(split(s, sep), sep) == s,
        split(s, sep).len() > 0,
        forall|i: int, j: int|
            0 <= i < split(s, sep).len() && 0 <= j < split(s, sep)[i].len() ==> (
            #[trigger] split(s, sep)[i][j]) != sep,
{
    lemma_split_from(s, sep, 0);
    assert(s.skip(0) =~= s);
}

proof fn lemma_split_from(s: Seq<u8>, sep: u8, from: int)
    requires
        0 <= from <= s.len(),
    ensures
        joined(split_from(s, sep, from), sep) == s.skip(from),
        split_from(s, sep, from).len() > 0,
        forall|i: int, j: int|
            0 <= i < split_from(s, sep, from).len() && 0 <= j < split_from(s, sep, from)[i].len()
                ==> (#[trigger] split_from(s, sep, from)[i][j]) != sep,
    decreases s.len() - from,
{
    let at = find(s, sep, from);
    lemma_find(s, sep, from);
    let parts = split_from(s, sep, from);
    if at < s.len() {
        lemma_split_from(s, sep, at + 1);
        let more = split_from(s, sep, at + 1);
        assert(parts.skip(1) =~= more);
        assert(parts[0] + seq![sep] + s.skip(at + 1) =~= s.skip(from));
        assert forall|i: int, j: int|
            0 <= i < parts.len() && 0 <= j < parts[i].len() implies (#[trigger] parts[i][j])
            != sep by {
            if i > 0 {
                assert(parts[i] == more[i - 1]);
                assert(more[i - 1][j] != sep);
            }
        }
    }
}

/// Two texts are equal but for case exactly if each byte is, and the case of a
/// letter is the only thing that lowercasing changes.
pub proof fn law_lowercase(s: Seq<u8>)
    ensures
        lower_all(s).len() == s.len(),
        forall|i: int|
            0 <= i < s.len() ==> #[trigger] lower_all(s)[i] == if 65 <= s[i] <= 90 {
                (s[i] + 32) as u8
            } else {
                s[i]
            },
{
}

} // verus!
