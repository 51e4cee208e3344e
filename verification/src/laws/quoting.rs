//! Quoted strings: what they hide, and what they say.
use crate::forwarded::{is_quoted, left_open, node_name, proto_of, top_find, top_split, NodeName};
use crate::laws::elements::{law_quotes_are_taken_off, plain};
use crate::laws::paths::lemma_split_shift;
use crate::scalar::Scheme;
use crate::text::{ascii, find, lemma_ascii, lemma_find, lemma_find_is, lower_all, split};
use vstd::prelude::*;

verus! {

/// A text without quotes is split at every separator.
pub proof fn law_unquoted_text_splits_everywhere(s: Seq<u8>, d: u8)
    requires
        d != 34,
        forall|i: int| 0 <= i < s.len() ==> #[trigger] s[i] != 34,
    ensures
        top_split(s, d) == split(s, d),
        !left_open(s, 0, false, false),
    decreases s.len(),
{
    lemma_find_plain(s, d, 0);
    lemma_find(s, d, 0);
    let at = find(s, d, 0);
    if at < s.len() {
        let rest = s.skip(at + 1);
        assert forall|i: int| 0 <= i < rest.len() implies #[trigger] rest[i] != 34 by {
            assert(s[at + 1 + i] != 34);
        }
        law_unquoted_text_splits_everywhere(rest, d);
        lemma_split_shift(s, d, at + 1, at + 1);
        assert(s.subrange(0, at) =~= s.take(at));
        assert(top_split(s, d) =~= split(s, d));
    } else {
        assert(s.skip(0) =~= s);
    }
}

proof fn lemma_find_plain(s: Seq<u8>, d: u8, i: int)
    requires
        d != 34,
        0 <= i <= s.len(),
        forall|j: int| 0 <= j < s.len() ==> #[trigger] s[j] != 34,
    ensures
        top_find(s, d, i, false, false) == find(s, d, i),
        !left_open(s, i, false, false),
    decreases s.len() - i,
{
    lemma_find(s, d, i);
    if i < s.len() {
        assert(s[i] != 34);
        lemma_find_plain(s, d, i + 1);
        lemma_find(s, d, i + 1);
        if s[i] == d {
            lemma_find_is(s, d, i, i);
        } else {
            lemma_find_is(s, d, i, find(s, d, i + 1));
        }
    }
}

/// Bytes within a quoted string: a backslash takes the next byte with it, and
/// no other quote stands there.
pub open spec fn string_bytes(s: Seq<u8>) -> bool
    decreases s.len(),
{
    if s.len() == 0 {
        true
    } else if s[0] == 92 {
        s.len() >= 2 && string_bytes(s.skip(2))
    } else {
        s[0] != 34 && string_bytes(s.skip(1))
    }
}

/// No separator within a quoted string splits, and the string is closed where
/// its quote stands. An escaped quote does not close it.
pub proof fn law_quotes_hide_separators(x: Seq<u8>, s: Seq<u8>, y: Seq<u8>, d: u8)
    requires
        d != 34,
        forall|i: int| 0 <= i < x.len() ==> #[trigger] x[i] != 34 && x[i] != d,
        string_bytes(s),
        forall|i: int| 0 <= i < y.len() ==> #[trigger] y[i] != 34 && y[i] != d,
    ensures
        top_split(x + seq![34u8] + s + seq![34u8] + y, d) == seq![
            x + seq![34u8] + s + seq![34u8] + y,
        ],
        !left_open(x + seq![34u8] + s + seq![34u8] + y, 0, false, false),
{
    let t = x + seq![34u8] + s + seq![34u8] + y;
    let n = x.len() as int;
    let m = n + 1 + s.len();
    lemma_outside(t, d, 0, n);
    assert(t[n] == 34);
    assert(t.subrange(n + 1, m) =~= s);
    lemma_inside(t, d, n + 1, m);
    assert(t[m] == 34);
    assert forall|j: int| m + 1 <= j < t.len() implies #[trigger] t[j] != 34 && t[j] != d by {
        assert(t[j] == y[j - m - 1]);
    }
    lemma_outside(t, d, m + 1, t.len() as int);
}

proof fn lemma_outside(t: Seq<u8>, d: u8, i: int, to: int)
    requires
        0 <= i <= to <= t.len(),
        forall|j: int| i <= j < to ==> #[trigger] t[j] != 34 && t[j] != d,
    ensures
        top_find(t, d, i, false, false) == top_find(t, d, to, false, false),
        left_open(t, i, false, false) == left_open(t, to, false, false),
    decreases to - i,
{
    if i < to {
        assert(t[i] != 34 && t[i] != d);
        lemma_outside(t, d, i + 1, to);
    }
}

proof fn lemma_inside(t: Seq<u8>, d: u8, i: int, to: int)
    requires
        0 <= i <= to <= t.len(),
        string_bytes(t.subrange(i, to)),
    ensures
        top_find(t, d, i, true, false) == top_find(t, d, to, true, false),
        left_open(t, i, true, false) == left_open(t, to, true, false),
    decreases to - i,
{
    if i < to {
        let s = t.subrange(i, to);
        assert(s[0] == t[i]);
        if t[i] == 92 {
            assert(s.skip(2) =~= t.subrange(i + 2, to));
            lemma_inside(t, d, i + 2, to);
            reveal_with_fuel(top_find, 3);
            reveal_with_fuel(left_open, 3);
        } else {
            assert(s.skip(1) =~= t.subrange(i + 1, to));
            lemma_inside(t, d, i + 1, to);
        }
    }
}

/// A `proto` is `http` or `https`, in any case and with quotes or without;
/// anything else says nothing.
pub proof fn law_protocols(s: Seq<u8>)
    requires
        plain(s),
    ensures
        ({
            let said = if lower_all(s) == ascii("http"@) {
                Some(Scheme::Http)
            } else if lower_all(s) == ascii("https"@) {
                Some(Scheme::Https)
            } else {
                None
            };
            &&& proto_of(s) == said
            &&& s.len() <= 64 ==> proto_of(seq![34u8] + s + seq![34u8]) == said
        }),
{
    reveal_strlit("http");
    reveal_strlit("https");
    lemma_ascii("http"@);
    lemma_ascii("https"@);
    assert(lower_all(ascii("http"@)) =~= ascii("http"@));
    assert(lower_all(ascii("https"@)) =~= ascii("https"@));
    if is_quoted(s) {
        assert(s[0] != 34);
    }
    law_quotes_are_taken_off(s);
}

/// A node in quotes is what it is without them; one of more than 64 bytes, and
/// one whose quotes are not closed, names nothing.
pub proof fn law_quoted_nodes(s: Seq<u8>)
    requires
        plain(s),
    ensures
        s.len() > 64 ==> node_name(seq![34u8] + s + seq![34u8]) == NodeName::Unknown,
        s.len() <= 64 ==> node_name(seq![34u8] + s + seq![34u8]) == node_name(s),
        node_name(seq![34u8] + s) == NodeName::Unknown,
{
    law_quotes_are_taken_off(s);
    let q = seq![34u8] + s + seq![34u8];
    assert(q[0] == 34);
    if s.len() > 0 {
        assert(s[0] != 34);
        assert(s[s.len() - 1] != 34);
        assert((seq![34u8] + s).last() == s.last());
    }
    crate::laws::elements::lemma_unescape_plain(s);
    assert(crate::forwarded::interior(q) =~= s);
    assert((seq![34u8] + s)[0] == 34);
}

} // verus!
