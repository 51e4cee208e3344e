//! Byte strings: ASCII classes, comparison, and search.
use vstd::prelude::*;

verus! {

/// The bytes of a literal.
pub open spec fn ascii(s: Seq<char>) -> Seq<u8> {
    vstd::utf8::encode_utf8(s)
}

/// An ASCII literal's bytes are its characters, one for one.
pub proof fn lemma_ascii(s: Seq<char>)
    requires
        vstd::utf8::is_ascii_chars(s),
    ensures
        ascii(s).len() == s.len(),
        forall|i: int| 0 <= i < s.len() ==> #[trigger] ascii(s)[i] == s[i] as u8,
{
    vstd::utf8::is_ascii_chars_encode_utf8(s);
}

// ---- byte classes ----

/// `0-9`.
pub open spec fn is_digit(b: u8) -> bool {
    '0' as u8 <= b <= '9' as u8
}

/// `A-Z`.
pub open spec fn is_upper(b: u8) -> bool {
    'A' as u8 <= b <= 'Z' as u8
}

/// `a-z`.
pub open spec fn is_lower(b: u8) -> bool {
    'a' as u8 <= b <= 'z' as u8
}

/// `0-9`, `a-f` or `A-F`.
pub open spec fn is_hex(b: u8) -> bool {
    is_digit(b) || 'a' as u8 <= b <= 'f' as u8 || 'A' as u8 <= b <= 'F' as u8
}

/// The value of one hexadecimal digit.
pub open spec fn hex_value(b: u8) -> nat {
    if is_digit(b) {
        (b - '0' as u8) as nat
    } else if is_lower(b) {
        (b - 'a' as u8 + 10) as nat
    } else {
        (b - 'A' as u8 + 10) as nat
    }
}

/// SP or HTAB.
pub open spec fn is_ows(b: u8) -> bool {
    b == ' ' as u8 || b == '\t' as u8
}

#[must_use]
pub fn digit(b: u8) -> (r: bool)
    ensures
        r == is_digit(b),
{
    '0' as u8 <= b && b <= '9' as u8
}

#[must_use]
pub fn upper(b: u8) -> (r: bool)
    ensures
        r == is_upper(b),
{
    'A' as u8 <= b && b <= 'Z' as u8
}

#[must_use]
pub fn hex(b: u8) -> (r: bool)
    ensures
        r == is_hex(b),
{
    digit(b) || 'a' as u8 <= b && b <= 'f' as u8 || 'A' as u8 <= b && b <= 'F' as u8
}

#[must_use]
pub fn ows(b: u8) -> (r: bool)
    ensures
        r == is_ows(b),
{
    b == ' ' as u8 || b == '\t' as u8
}

/// The lowercase form of an ASCII byte; every other byte is itself.
pub open spec fn lower(b: u8) -> u8 {
    if is_upper(b) {
        (b + 32) as u8
    } else {
        b
    }
}

/// Every byte of `s` in lowercase.
pub open spec fn lower_all(s: Seq<u8>) -> Seq<u8> {
    Seq::new(s.len(), |i: int| lower(s[i]))
}

#[must_use]
pub fn to_lower(b: u8) -> (r: u8)
    ensures
        r == lower(b),
{
    if upper(b) {
        b + 32
    } else {
        b
    }
}

// ---- comparison ----

/// Whether two byte strings are equal.
#[must_use]
pub fn bytes_eq(a: &[u8], b: &[u8]) -> (r: bool)
    ensures
        r == (a@ == b@),
{
    if a.len() != b.len() {
        return false;
    }
    let mut i: usize = 0;
    while i < a.len()
        invariant
            a@.len() == b@.len(),
            i <= a@.len(),
            forall|j: int| 0 <= j < i ==> a@[j] == b@[j],
        decreases a@.len() - i,
    {
        if a[i] != b[i] {
            return false;
        }
        i += 1;
    }
    assert(a@ =~= b@);
    true
}

/// Whether two byte strings are equal up to ASCII case.
#[must_use]
pub fn eq_ignore_case(a: &[u8], b: &[u8]) -> (r: bool)
    ensures
        r == (lower_all(a@) == lower_all(b@)),
{
    if a.len() != b.len() {
        assert(lower_all(a@).len() != lower_all(b@).len());
        return false;
    }
    let mut i: usize = 0;
    while i < a.len()
        invariant
            a@.len() == b@.len(),
            i <= a@.len(),
            forall|j: int| 0 <= j < i ==> lower(a@[j]) == lower(b@[j]),
        decreases a@.len() - i,
    {
        if to_lower(a[i]) != to_lower(b[i]) {
            assert(lower_all(a@)[i as int] != lower_all(b@)[i as int]);
            return false;
        }
        i += 1;
    }
    assert(lower_all(a@) =~= lower_all(b@));
    true
}

/// Whether `a` begins with `p`.
#[must_use]
pub fn starts_with(a: &[u8], p: &[u8]) -> (r: bool)
    ensures
        r == p@.is_prefix_of(a@),
{
    if a.len() < p.len() {
        return false;
    }
    let r = bytes_eq(vstd::slice::slice_subrange(a, 0, p.len()), p);
    r
}

// ---- search ----

/// The first position at or after `from` that holds `b`, or the length of `s`
/// if there is none.
pub open spec fn find(s: Seq<u8>, b: u8, from: int) -> int
    decreases s.len() - from,
{
    if from >= s.len() {
        s.len() as int
    } else if s[from] == b {
        from
    } else {
        find(s, b, from + 1)
    }
}

pub proof fn lemma_find(s: Seq<u8>, b: u8, from: int)
    requires
        0 <= from <= s.len(),
    ensures
        from <= find(s, b, from) <= s.len(),
        find(s, b, from) < s.len() ==> s[find(s, b, from)] == b,
        forall|j: int| from <= j < find(s, b, from) ==> s[j] != b,
    decreases s.len() - from,
{
    if from < s.len() && s[from] != b {
        lemma_find(s, b, from + 1);
    }
}

/// What pins the result of [`find`] down.
pub proof fn lemma_find_is(s: Seq<u8>, b: u8, from: int, at: int)
    requires
        0 <= from <= at <= s.len(),
        at < s.len() ==> s[at] == b,
        forall|j: int| from <= j < at ==> s[j] != b,
    ensures
        find(s, b, from) == at,
    decreases at - from,
{
    if from < at {
        lemma_find_is(s, b, from + 1, at);
    }
}

/// The first position of `b` in `s`.
#[must_use]
pub fn index_of(s: &[u8], b: u8) -> (r: Option<usize>)
    ensures
        match r {
            Some(i) => i < s@.len() && i == find(s@, b, 0),
            None => find(s@, b, 0) == s@.len(),
        },
{
    let mut i: usize = 0;
    while i < s.len()
        invariant
            i <= s@.len(),
            forall|j: int| 0 <= j < i ==> s@[j] != b,
        decreases s@.len() - i,
    {
        if s[i] == b {
            proof {
                lemma_find_is(s@, b, 0, i as int);
            }
            return Some(i);
        }
        i += 1;
    }
    proof {
        lemma_find_is(s@, b, 0, i as int);
    }
    None
}

/// The first position at or after `from` that holds `b`, or the length of `s`.
#[must_use]
pub fn index_from(s: &[u8], b: u8, from: usize) -> (r: usize)
    requires
        from <= s@.len(),
    ensures
        r == find(s@, b, from as int),
        from <= r <= s@.len(),
        r < s@.len() ==> s@[r as int] == b,
        forall|j: int| from <= j < r ==> s@[j] != b,
{
    let mut i: usize = from;
    while i < s.len() && s[i] != b
        invariant
            from <= i <= s@.len(),
            forall|j: int| from <= j < i ==> s@[j] != b,
        decreases s@.len() - i,
    {
        i += 1;
    }
    proof {
        lemma_find_is(s@, b, from as int, i as int);
    }
    i
}

/// The last position in the first `to` bytes of `s` that holds `b`, or -1 if
/// there is none.
pub open spec fn rfind(s: Seq<u8>, b: u8, to: int) -> int
    decreases to,
{
    if to <= 0 {
        -1
    } else if s[to - 1] == b {
        to - 1
    } else {
        rfind(s, b, to - 1)
    }
}

pub proof fn lemma_rfind(s: Seq<u8>, b: u8, to: int)
    requires
        0 <= to <= s.len(),
    ensures
        -1 <= rfind(s, b, to) < to,
        rfind(s, b, to) >= 0 ==> s[rfind(s, b, to)] == b,
        forall|j: int| rfind(s, b, to) < j < to ==> s[j] != b,
    decreases to,
{
    if to > 0 && s[to - 1] != b {
        lemma_rfind(s, b, to - 1);
    }
}

/// What pins the result of [`rfind`] down.
pub proof fn lemma_rfind_is(s: Seq<u8>, b: u8, to: int, at: int)
    requires
        -1 <= at < to <= s.len() || at == -1 && to == 0,
        at >= 0 ==> s[at] == b,
        forall|j: int| at < j < to ==> s[j] != b,
    ensures
        rfind(s, b, to) == at,
    decreases to,
{
    if at < to - 1 {
        lemma_rfind_is(s, b, to - 1, at);
    }
}

/// The last position of `b` in `s`.
#[must_use]
pub fn last_index_of(s: &[u8], b: u8) -> (r: Option<usize>)
    ensures
        match r {
            Some(i) => i < s@.len() && i == rfind(s@, b, s@.len() as int),
            None => rfind(s@, b, s@.len() as int) == -1,
        },
{
    let mut i: usize = s.len();
    while i > 0
        invariant
            i <= s@.len(),
            forall|j: int| i <= j < s@.len() ==> s@[j] != b,
        decreases i,
    {
        i -= 1;
        if s[i] == b {
            proof {
                lemma_rfind_is(s@, b, s@.len() as int, i as int);
            }
            return Some(i);
        }
    }
    proof {
        lemma_rfind_is(s@, b, s@.len() as int, -1);
    }
    None
}

/// Whether `needle` stands at position `i` of `s`.
pub open spec fn occurs_at(s: Seq<u8>, needle: Seq<u8>, i: int) -> bool {
    0 <= i && i + needle.len() <= s.len() && s.subrange(i, i + needle.len()) == needle
}

/// The first position at or after `from` at which `needle` stands.
pub open spec fn find_seq(s: Seq<u8>, needle: Seq<u8>, from: int) -> Option<int>
    decreases s.len() - from,
{
    if from + needle.len() > s.len() || from >= s.len() {
        None
    } else if occurs_at(s, needle, from) {
        Some(from)
    } else {
        find_seq(s, needle, from + 1)
    }
}

pub proof fn lemma_find_seq(s: Seq<u8>, needle: Seq<u8>, from: int)
    requires
        0 <= from,
        needle.len() > 0,
    ensures
        match find_seq(s, needle, from) {
            Some(i) => from <= i && occurs_at(s, needle, i) && forall|j: int|
                from <= j < i ==> !occurs_at(s, needle, j),
            None => forall|j: int| from <= j ==> !occurs_at(s, needle, j),
        },
    decreases s.len() - from,
{
    if from + needle.len() > s.len() || from >= s.len() {
    } else if occurs_at(s, needle, from) {
    } else {
        lemma_find_seq(s, needle, from + 1);
    }
}

/// What pins a position found by [`find_seq`] down.
pub proof fn lemma_find_seq_is(s: Seq<u8>, needle: Seq<u8>, from: int, at: int)
    requires
        0 <= from <= at,
        needle.len() > 0,
        occurs_at(s, needle, at),
        forall|j: int| from <= j < at ==> !occurs_at(s, needle, j),
    ensures
        find_seq(s, needle, from) == Some(at),
{
    lemma_find_seq(s, needle, from);
    match find_seq(s, needle, from) {
        Some(i) => {
            if i < at {
                assert(!occurs_at(s, needle, i));
            }
        },
        None => {
            assert(!occurs_at(s, needle, at));
        },
    }
}

/// The `len` bytes of `s` from position `at` on.
pub(crate) fn slice_at(s: &[u8], at: usize, len: usize) -> (r: &[u8])
    requires
        at + len <= s@.len(),
    ensures
        r@ == s@.subrange(at as int, at + len),
{
    assert(s@.len() == s.len());
    vstd::slice::slice_subrange(s, at, at + len)
}

// ---- lists ----

/// The views of a list of byte strings.
pub open spec fn views(lines: Seq<&[u8]>) -> Seq<Seq<u8>> {
    Seq::new(lines.len(), |i: int| lines[i]@)
}

/// The parts of `s` between the separators `b`, from position `from` on.
pub open spec fn split_from(s: Seq<u8>, b: u8, from: int) -> Seq<Seq<u8>>
    decreases s.len() - from,
{
    let at = find(s, b, from);
    if from < 0 || from > s.len() || at < from || at >= s.len() {
        seq![s.skip(from)]
    } else {
        seq![s.subrange(from, at)] + split_from(s, b, at + 1)
    }
}

/// The parts of `s` between the separators `b`: one more than there are
/// separators.
pub open spec fn split(s: Seq<u8>, b: u8) -> Seq<Seq<u8>> {
    split_from(s, b, 0)
}

/// The parts of `s` between the separators `b`.
pub fn split_on(s: &[u8], b: u8) -> (r: Vec<&[u8]>)
    ensures
        views(r@) == split(s@, b),
{
    let mut parts: Vec<&[u8]> = Vec::new();
    let mut from: usize = 0;
    proof {
        assert(views(parts@) + split_from(s@, b, 0) =~= split(s@, b));
    }
    loop
        invariant
            from <= s@.len(),
            views(parts@) + split_from(s@, b, from as int) == split(s@, b),
        decreases s@.len() - from,
    {
        let ghost before = parts@;
        let mut at: usize = from;
        while at < s.len() && s[at] != b
            invariant
                from <= at <= s@.len(),
                forall|j: int| from <= j < at ==> s@[j] != b,
            decreases s@.len() - at,
        {
            at += 1;
        }
        proof {
            lemma_find_is(s@, b, from as int, at as int);
        }
        parts.push(vstd::slice::slice_subrange(s, from, at));
        if at == s.len() {
            proof {
                assert(views(parts@) =~= views(before) + split_from(s@, b, from as int));
            }
            return parts;
        }
        proof {
            assert(views(parts@) + split_from(s@, b, at + 1) =~= views(before) + split_from(
                s@,
                b,
                from as int,
            ));
        }
        from = at + 1;
    }
}

/// Parts with a separator between each two.
pub open spec fn joined(parts: Seq<Seq<u8>>, delim: u8) -> Seq<u8>
    decreases parts.len(),
{
    if parts.len() == 0 {
        Seq::empty()
    } else if parts.len() == 1 {
        parts[0]
    } else {
        parts[0] + seq![delim] + joined(parts.skip(1), delim)
    }
}

} // verus!
