//! The forwarding chain: what the `Forwarded`, `X-Forwarded-For` and
//! `X-Forwarded-Proto` lines of a request claim, in order.
//!
//! Nothing here is believed. The chain is bounded in elements and in bytes,
//! and passing either bound is a refusal, never a truncation: a shortened
//! chain would name another client. All lines of a field are one list. An
//! entry that is no address stays in the chain as one that ends any walk over
//! it.
use crate::addr_text::{
    node_port_of_text, parse_node_port, parse_v4, parse_v6, v4_of_text, v6_of_text,
};
use crate::error::RejectReason;
use crate::ext::{bytes_of, chain_elements, content, frozen, has_room, list_cap, put_u8, ElementList};
use crate::field::{trim, trim_ows};
use crate::known::KnownHeader;
use crate::limits::{ClampedLimits, Limits};
use crate::net::IpAddr;
use crate::scalar::Scheme;
use crate::section::{values_of, Field, FieldSection};
use crate::text::{
    ascii, bytes_eq, digit, eq_ignore_case, find, index_from, is_digit, is_lower, is_upper, joined,
    lower_all, views,
};
use bytes::{Bytes, BytesMut};
use vstd::prelude::*;
use vstd::slice::slice_subrange;

verus! {

/// The elements that a chain holds before it moves to the heap.
const INLINE_ELEMENTS: usize = 8;

/// What a `for` parameter named.
#[derive(Copy, Clone, Debug, PartialEq, Eq, Structural)]
pub enum NodeName {
    /// An address, with a port where one other than 0 was given.
    Addr {
        /// The address.
        addr: IpAddr,
        /// The port.
        port: Option<u16>,
    },
    /// The token `unknown`, or anything that is not understood.
    Unknown,
    /// An obfuscated identifier: `_` and one or more letters, digits, `.`, `_`
    /// or `-` behind it.
    Obfuscated,
    /// The element has no such parameter.
    Absent,
}

impl NodeName {
    /// The address, if this is one.
    #[must_use]
    pub fn addr(self) -> (r: Option<IpAddr>)
        ensures
            r == match self {
                NodeName::Addr { addr, .. } => Some(addr),
                _ => None,
            },
    {
        match self {
            NodeName::Addr { addr, .. } => Some(addr),
            NodeName::Unknown | NodeName::Obfuscated | NodeName::Absent => None,
        }
    }

    /// Whether this is no address, and therefore ends a walk over the chain.
    #[must_use]
    pub fn terminates_walk(self) -> (r: bool)
        ensures
            r == !(self is Addr),
    {
        !matches!(self, NodeName::Addr { .. })
    }
}

/// One element of the chain.
#[derive(Copy, Clone, Debug, PartialEq, Eq, Structural)]
pub struct ForwardedElement {
    /// The `for` parameter.
    pub node: NodeName,
    /// The `proto` parameter, where it was `http` or `https`.
    pub proto: Option<Scheme>,
    /// Whether the element came from an `X-Forwarded-For` line.
    pub from_xff: bool,
}

// ---- splitting outside quoted strings ----

/// The first `delim` at or after `i` that stands outside any quoted string,
/// or the length of `s`. Within a string a backslash takes the next byte with
/// it; a string that is not closed goes on to the end.
pub open spec fn top_find(s: Seq<u8>, delim: u8, i: int, quoted: bool, escaped: bool) -> int
    decreases s.len() - i,
{
    if i >= s.len() {
        s.len() as int
    } else if escaped {
        top_find(s, delim, i + 1, quoted, false)
    } else if quoted {
        if s[i] == '\\' as u8 {
            top_find(s, delim, i + 1, true, true)
        } else if s[i] == '"' as u8 {
            top_find(s, delim, i + 1, false, false)
        } else {
            top_find(s, delim, i + 1, true, false)
        }
    } else if s[i] == '"' as u8 {
        top_find(s, delim, i + 1, true, false)
    } else if s[i] == delim {
        i
    } else {
        top_find(s, delim, i + 1, false, false)
    }
}

/// The parts of `s` between the separators that stand outside any quoted
/// string.
pub open spec fn top_split(s: Seq<u8>, delim: u8) -> Seq<Seq<u8>>
    decreases s.len(),
{
    let at = top_find(s, delim, 0, false, false);
    if at < 0 || at >= s.len() {
        seq![s]
    } else {
        seq![s.take(at)] + top_split(s.skip(at + 1), delim)
    }
}

/// How many `delim` at or after `i` stand outside any quoted string.
pub open spec fn top_count(s: Seq<u8>, delim: u8, i: int, quoted: bool, escaped: bool) -> nat
    decreases s.len() - i,
{
    if i >= s.len() {
        0
    } else if escaped {
        top_count(s, delim, i + 1, quoted, false)
    } else if quoted {
        if s[i] == '\\' as u8 {
            top_count(s, delim, i + 1, true, true)
        } else if s[i] == '"' as u8 {
            top_count(s, delim, i + 1, false, false)
        } else {
            top_count(s, delim, i + 1, true, false)
        }
    } else if s[i] == '"' as u8 {
        top_count(s, delim, i + 1, true, false)
    } else if s[i] == delim {
        top_count(s, delim, i + 1, false, false) + 1
    } else {
        top_count(s, delim, i + 1, false, false)
    }
}

/// Whether a quoted string is still open at the end of `s`.
pub open spec fn left_open(s: Seq<u8>, i: int, quoted: bool, escaped: bool) -> bool
    decreases s.len() - i,
{
    if i >= s.len() {
        quoted
    } else if escaped {
        left_open(s, i + 1, quoted, false)
    } else if quoted {
        if s[i] == '\\' as u8 {
            left_open(s, i + 1, true, true)
        } else if s[i] == '"' as u8 {
            left_open(s, i + 1, false, false)
        } else {
            left_open(s, i + 1, true, false)
        }
    } else {
        left_open(s, i + 1, s[i] == '"' as u8, false)
    }
}

/// What `top_find` finds, and what stands before it. An escape only follows a
/// quote that is open.
pub proof fn lemma_top_find(s: Seq<u8>, delim: u8, i: int, quoted: bool, escaped: bool)
    requires
        0 <= i <= s.len(),
        escaped ==> quoted,
    ensures
        ({
            let at = top_find(s, delim, i, quoted, escaped);
            &&& i <= at <= s.len()
            &&& top_find(s.take(at), delim, i, quoted, escaped) == at
            &&& at < s.len() ==> s[at] == delim && !left_open(s.take(at), i, quoted, escaped)
            &&& at == s.len() ==> top_count(s, delim, i, quoted, escaped) == 0
            &&& at < s.len() ==> top_count(s, delim, i, quoted, escaped) == 1 + top_count(
                s,
                delim,
                at + 1,
                false,
                false,
            )
        }),
    decreases s.len() - i,
{
    if i < s.len() {
        let (q, e): (bool, bool) = if escaped {
            (quoted, false)
        } else if quoted {
            (s[i] != '"' as u8, s[i] == '\\' as u8)
        } else {
            (s[i] == '"' as u8, false)
        };
        let at = top_find(s, delim, i, quoted, escaped);
        if escaped || quoted || s[i] == '"' as u8 || s[i] != delim {
            lemma_top_find(s, delim, i + 1, q, e);
            assert(s.take(at)[i] == s[i]);
        }
    }
}

/// Counting goes by what is left alone.
proof fn lemma_top_count_skip(s: Seq<u8>, delim: u8, k: int, i: int, quoted: bool, escaped: bool)
    requires
        0 <= k <= i <= s.len(),
    ensures
        top_count(s.skip(k), delim, i - k, quoted, escaped) == top_count(
            s,
            delim,
            i,
            quoted,
            escaped,
        ),
    decreases s.len() - i,
{
    if i < s.len() {
        assert(s.skip(k)[i - k] == s[i]);
        if escaped {
            lemma_top_count_skip(s, delim, k, i + 1, quoted, false);
        } else if quoted {
            lemma_top_count_skip(s, delim, k, i + 1, s[i] != '"' as u8, s[i] == '\\' as u8);
        } else {
            lemma_top_count_skip(s, delim, k, i + 1, s[i] == '"' as u8, false);
        }
    }
}

/// Nothing is lost in splitting: the parts with the separators between them
/// are the input again. There is one part more than there are separators
/// outside quoted strings, no part has one outside a quoted string, and only
/// the last part can end within a string that is not closed.
pub proof fn law_split_parts_join(s: Seq<u8>, delim: u8)
    ensures
        joined(top_split(s, delim), delim) == s,
        top_split(s, delim).len() == top_count(s, delim, 0, false, false) + 1,
        forall|i: int|
            0 <= i < top_split(s, delim).len() ==> top_count(
                #[trigger] top_split(s, delim)[i],
                delim,
                0,
                false,
                false,
            ) == 0,
        forall|i: int|
            0 <= i < top_split(s, delim).len() - 1 ==> !left_open(
                #[trigger] top_split(s, delim)[i],
                0,
                false,
                false,
            ),
    decreases s.len(),
{
    let at = top_find(s, delim, 0, false, false);
    let parts = top_split(s, delim);
    lemma_top_find(s, delim, 0, false, false);
    if at < s.len() {
        let head = s.take(at);
        let rest = s.skip(at + 1);
        let more = top_split(rest, delim);
        law_split_parts_join(rest, delim);
        lemma_top_find(head, delim, 0, false, false);
        lemma_top_count_skip(s, delim, at + 1, at + 1, false, false);
        assert(parts == seq![head] + more);
        assert(parts.skip(1) =~= more);
        assert(head + seq![delim] + rest =~= s);
        assert forall|i: int| 0 <= i < parts.len() implies top_count(
            #[trigger] parts[i],
            delim,
            0,
            false,
            false,
        ) == 0 by {
            if i > 0 {
                assert(parts[i] == more[i - 1]);
            }
        }
        assert forall|i: int| 0 <= i < parts.len() - 1 implies !left_open(
            #[trigger] parts[i],
            0,
            false,
            false,
        ) by {
            if i > 0 {
                assert(parts[i] == more[i - 1]);
            }
        }
    }
}

fn find_top(s: &[u8], delim: u8) -> (r: usize)
    ensures
        r == top_find(s@, delim, 0, false, false),
        r <= s@.len(),
{
    let mut quoted = false;
    let mut escaped = false;
    let mut i: usize = 0;
    while i < s.len()
        invariant
            i <= s@.len(),
            top_find(s@, delim, 0, false, false) == top_find(s@, delim, i as int, quoted, escaped),
        decreases s@.len() - i,
    {
        let b: u8 = s[i];
        if escaped {
            escaped = false;
        } else if quoted {
            if b == '\\' as u8 {
                escaped = true;
            } else if b == '"' as u8 {
                quoted = false;
            }
        } else if b == '"' as u8 {
            quoted = true;
        } else if b == delim {
            return i;
        }
        i += 1;
    }
    i
}

fn split_top(s: &[u8], delim: u8) -> (r: Vec<&[u8]>)
    ensures
        views(r@) == top_split(s@, delim),
        forall|i: int| 0 <= i < r@.len() ==> (#[trigger] r@[i])@.len() <= s@.len(),
        r@.len() > 0,
{
    let mut parts: Vec<&[u8]> = Vec::new();
    let mut rest: &[u8] = s;
    proof {
        assert(views(parts@) + top_split(rest@, delim) =~= top_split(s@, delim));
    }
    loop
        invariant
            rest@.len() <= s@.len(),
            views(parts@) + top_split(rest@, delim) == top_split(s@, delim),
            forall|i: int| 0 <= i < parts@.len() ==> (#[trigger] parts@[i])@.len() <= s@.len(),
        decreases rest@.len(),
    {
        let ghost before = parts@;
        let at: usize = find_top(rest, delim);
        if at == rest.len() {
            parts.push(rest);
            proof {
                assert(views(parts@) =~= views(before) + top_split(rest@, delim));
            }
            return parts;
        }
        parts.push(slice_subrange(rest, 0, at));
        let next = slice_subrange(rest, at + 1, rest.len());
        proof {
            assert(next@ =~= rest@.skip(at + 1));
            assert(views(parts@) + top_split(next@, delim) =~= views(before) + top_split(
                rest@,
                delim,
            ));
        }
        rest = next;
    }
}

// ---- quoted strings ----

/// Whether a value is a quoted string.
pub open spec fn is_quoted(s: Seq<u8>) -> bool {
    s.len() >= 2 && s[0] == '"' as u8 && s.last() == '"' as u8
}

/// What stands between the quotes.
pub open spec fn interior(s: Seq<u8>) -> Seq<u8> {
    s.subrange(1, s.len() - 1)
}

/// A string with its escapes resolved: a backslash gives the byte behind it,
/// and nothing at the end.
pub open spec fn unescape(s: Seq<u8>) -> Seq<u8>
    decreases s.len(),
{
    if s.len() == 0 {
        Seq::empty()
    } else if s[0] == '\\' as u8 {
        if s.len() == 1 {
            Seq::empty()
        } else {
            seq![s[1]] + unescape(s.skip(2))
        }
    } else {
        seq![s[0]] + unescape(s.skip(1))
    }
}

/// What is still to come of a string at `i`.
spec fn unescape_rest(s: Seq<u8>, i: int, escaped: bool) -> Seq<u8> {
    if !escaped {
        unescape(s.skip(i))
    } else if i >= s.len() {
        Seq::empty()
    } else {
        seq![s[i]] + unescape(s.skip(i + 1))
    }
}

proof fn lemma_unescape_rest(s: Seq<u8>, i: int, escaped: bool)
    requires
        0 <= i < s.len(),
    ensures
        unescape_rest(s, i, escaped) == if !escaped && s[i] == '\\' as u8 {
            unescape_rest(s, i + 1, true)
        } else {
            seq![s[i]] + unescape_rest(s, i + 1, false)
        },
{
    let t = s.skip(i);
    assert(t[0] == s[i]);
    assert(t.skip(1) =~= s.skip(i + 1));
    if t.len() > 1 {
        assert(t[1] == s[i + 1]);
        assert(t.skip(2) =~= s.skip(i + 2));
    }
}

/// Resolves the escapes of a string into `buf`, if the result fits.
fn unescape_into(s: &[u8], buf: &mut [u8; 64]) -> (r: Option<usize>)
    ensures
        match r {
            Some(n) => n <= 64 && final(buf)@.take(n as int) == unescape(s@),
            None => unescape(s@).len() > 64,
        },
{
    let mut escaped = false;
    let mut n: usize = 0;
    let mut i: usize = 0;
    proof {
        assert(s@.skip(0) =~= s@);
        assert(buf@.take(0) + unescape_rest(s@, 0, false) =~= unescape(s@));
    }
    while i < s.len()
        invariant
            i <= s@.len(),
            n <= 64,
            buf@.take(n as int) + unescape_rest(s@, i as int, escaped) == unescape(s@),
        decreases s@.len() - i,
    {
        let b: u8 = s[i];
        proof {
            lemma_unescape_rest(s@, i as int, escaped);
        }
        if !escaped && b == '\\' as u8 {
            escaped = true;
        } else {
            escaped = false;
            if n == 64 {
                proof {
                    assert(unescape(s@).len() >= 65);
                }
                return None;
            }
            let ghost before = buf@;
            buf[n] = b;
            proof {
                assert(buf@.take(n + 1) + unescape_rest(s@, i + 1, false) =~= before.take(
                    n as int,
                ) + (seq![b] + unescape_rest(s@, i + 1, false)));
            }
            n += 1;
        }
        i += 1;
    }
    proof {
        assert(unescape_rest(s@, i as int, escaped) =~= Seq::<u8>::empty());
        assert(buf@.take(n as int) + Seq::<u8>::empty() =~= buf@.take(n as int));
    }
    Some(n)
}

/// A value without its quotes and escapes; one that is no quoted string is
/// itself.
pub open spec fn unquoted(s: Seq<u8>) -> Seq<u8> {
    if is_quoted(s) {
        unescape(interior(s))
    } else {
        s
    }
}

/// Appends a value without its quotes and escapes.
fn write_unquoted(raw: &[u8], out: &mut BytesMut)
    requires
        has_room(content(*old(out)).len() as int, raw@.len() as int),
    ensures
        content(*final(out)) == content(*old(out)) + unquoted(raw@),
{
    if raw.len() >= 2 && raw[0] == '"' as u8 && raw[raw.len() - 1] == '"' as u8 {
        let s = slice_subrange(raw, 1, raw.len() - 1);
        let ghost before = content(*out);
        let mut escaped = false;
        let mut i: usize = 0;
        proof {
            assert(s@.skip(0) =~= s@);
        }
        while i < s.len()
            invariant
                i <= s@.len() <= raw@.len(),
                has_room(before.len() as int, raw@.len() as int),
                before.len() <= content(*out).len() <= before.len() + i,
                content(*out) + unescape_rest(s@, i as int, escaped) == before + unescape(s@),
            decreases s@.len() - i,
        {
            let b: u8 = s[i];
            let ghost now = content(*out);
            proof {
                lemma_unescape_rest(s@, i as int, escaped);
            }
            if !escaped && b == '\\' as u8 {
                escaped = true;
            } else {
                escaped = false;
                put_u8(out, b);
                proof {
                    assert(content(*out) + unescape_rest(s@, i + 1, false) =~= now + (seq![b]
                        + unescape_rest(s@, i + 1, false)));
                }
            }
            i += 1;
        }
        proof {
            assert(unescape_rest(s@, i as int, escaped) =~= Seq::<u8>::empty());
            assert(content(*out) + Seq::<u8>::empty() =~= content(*out));
        }
    } else {
        out.extend_from_slice(raw);
    }
}

// ---- node names and protocols ----

/// A port of 0 is no port.
pub open spec fn known_port(port: u16) -> Option<u16> {
    if port == 0 {
        None
    } else {
        Some(port)
    }
}

fn normalize_port(port: u16) -> (r: Option<u16>)
    ensures
        r == known_port(port),
{
    if port == 0 {
        None
    } else {
        Some(port)
    }
}

/// A byte of an obfuscated identifier behind its `_`.
pub open spec fn obfuscated_byte(b: u8) -> bool {
    is_upper(b) || is_lower(b) || is_digit(b) || b == '.' as u8 || b == '_' as u8 || b == '-' as u8
}

/// Whether a node name is an obfuscated identifier.
pub open spec fn obfuscated(v: Seq<u8>) -> bool {
    v.len() >= 2 && v[0] == '_' as u8 && forall|i: int|
        1 <= i < v.len() ==> obfuscated_byte(#[trigger] v[i])
}

fn is_obfuscated(v: &[u8]) -> (r: bool)
    ensures
        r == obfuscated(v@),
{
    if v.len() < 2 || v[0] != '_' as u8 {
        return false;
    }
    let mut i: usize = 1;
    while i < v.len()
        invariant
            1 <= i <= v@.len(),
            forall|j: int| 1 <= j < i ==> obfuscated_byte(#[trigger] v@[j]),
        decreases v@.len() - i,
    {
        let b: u8 = v[i];
        if !('A' as u8 <= b && b <= 'Z' as u8 || 'a' as u8 <= b && b <= 'z' as u8 || digit(b) || b
            == '.' as u8 || b == '_' as u8 || b == '-' as u8) {
            assert(!obfuscated_byte(v@[i as int]));
            return false;
        }
        i += 1;
    }
    true
}

/// What a node name without quotes names: `[ipv6]`, `[ipv6]:port`, `ipv4` or
/// `ipv4:port` is an address, `_` and a name behind it an obfuscated
/// identifier, and anything else is unknown.
pub open spec fn classify_node(v: Seq<u8>) -> NodeName {
    if lower_all(v) == lower_all(ascii("unknown"@)) {
        NodeName::Unknown
    } else if obfuscated(v) {
        NodeName::Obfuscated
    } else if v.len() > 0 && v[0] == '_' as u8 {
        NodeName::Unknown
    } else if v.len() > 0 && v[0] == '[' as u8 {
        let close = find(v, ']' as u8, 0);
        if close >= v.len() {
            NodeName::Unknown
        } else {
            match v6_of_text(v.subrange(1, close)) {
                None => NodeName::Unknown,
                Some(a) => if close + 1 == v.len() {
                    NodeName::Addr { addr: IpAddr::V6(a), port: None }
                } else if v[close + 1] != ':' as u8 {
                    NodeName::Unknown
                } else {
                    match node_port_of_text(v.skip(close + 2)) {
                        None => NodeName::Unknown,
                        Some(p) => NodeName::Addr { addr: IpAddr::V6(a), port: known_port(p) },
                    }
                },
            }
        }
    } else {
        let colon = find(v, ':' as u8, 0);
        if colon >= v.len() {
            match v4_of_text(v) {
                None => NodeName::Unknown,
                Some(a) => NodeName::Addr { addr: IpAddr::V4(a), port: None },
            }
        } else if find(v, ':' as u8, colon + 1) < v.len() {
            NodeName::Unknown
        } else {
            match (v4_of_text(v.take(colon)), node_port_of_text(v.skip(colon + 1))) {
                (Some(a), Some(p)) => NodeName::Addr { addr: IpAddr::V4(a), port: known_port(p) },
                _ => NodeName::Unknown,
            }
        }
    }
}

fn classify_unquoted(v: &[u8]) -> (r: NodeName)
    ensures
        r == classify_node(v@),
{
    if eq_ignore_case(v, "unknown".as_bytes()) {
        return NodeName::Unknown;
    }
    if v.len() > 0 && v[0] == '_' as u8 {
        return if is_obfuscated(v) {
            NodeName::Obfuscated
        } else {
            NodeName::Unknown
        };
    }
    if v.len() > 0 && v[0] == '[' as u8 {
        let close: usize = index_from(v, ']' as u8, 0);
        if close == v.len() {
            return NodeName::Unknown;
        }
        let a: u128 = match parse_v6(slice_subrange(v, 1, close)) {
            Some(a) => a,
            None => {
                return NodeName::Unknown;
            },
        };
        if close + 1 == v.len() {
            return NodeName::Addr { addr: IpAddr::V6(a), port: None };
        }
        if v[close + 1] != ':' as u8 {
            return NodeName::Unknown;
        }
        return match parse_node_port(slice_subrange(v, close + 2, v.len())) {
            Some(p) => NodeName::Addr { addr: IpAddr::V6(a), port: normalize_port(p) },
            None => NodeName::Unknown,
        };
    }
    let colon: usize = index_from(v, ':' as u8, 0);
    if colon == v.len() {
        return match parse_v4(v) {
            Some(a) => NodeName::Addr { addr: IpAddr::V4(a), port: None },
            None => NodeName::Unknown,
        };
    }
    if index_from(v, ':' as u8, colon + 1) < v.len() {
        return NodeName::Unknown;
    }
    let left = slice_subrange(v, 0, colon);
    let right = slice_subrange(v, colon + 1, v.len());
    match (parse_v4(left), parse_node_port(right)) {
        (Some(a), Some(p)) => NodeName::Addr { addr: IpAddr::V4(a), port: normalize_port(p) },
        _ => NodeName::Unknown,
    }
}

/// What a `for` value names. A value that begins with a quote and is no
/// quoted string of at most 64 bytes is unknown.
pub open spec fn node_name(raw: Seq<u8>) -> NodeName {
    if raw.len() > 0 && raw[0] == '"' as u8 {
        if !is_quoted(raw) || unescape(interior(raw)).len() > 64 {
            NodeName::Unknown
        } else {
            classify_node(unescape(interior(raw)))
        }
    } else {
        classify_node(raw)
    }
}

/// Reads a `for` or `by` value. What cannot be read is unknown.
fn parse_node_name(raw: &[u8]) -> (r: NodeName)
    ensures
        r == node_name(raw@),
{
    if raw.len() > 0 && raw[0] == '"' as u8 {
        if raw.len() < 2 || raw[raw.len() - 1] != '"' as u8 {
            return NodeName::Unknown;
        }
        let mut buf: [u8; 64] = [0;64];
        return match unescape_into(slice_subrange(raw, 1, raw.len() - 1), &mut buf) {
            Some(n) => classify_unquoted(slice_subrange(buf.as_slice(), 0, n)),
            None => NodeName::Unknown,
        };
    }
    classify_unquoted(raw)
}

/// The scheme that a text names, in any case.
pub open spec fn scheme_of(s: Seq<u8>) -> Option<Scheme> {
    if lower_all(s) == lower_all(ascii("http"@)) {
        Some(Scheme::Http)
    } else if lower_all(s) == lower_all(ascii("https"@)) {
        Some(Scheme::Https)
    } else {
        None
    }
}

fn value_matches_scheme(value: &[u8]) -> (r: Option<Scheme>)
    ensures
        r == scheme_of(value@),
{
    if eq_ignore_case(value, "http".as_bytes()) {
        Some(Scheme::Http)
    } else if eq_ignore_case(value, "https".as_bytes()) {
        Some(Scheme::Https)
    } else {
        None
    }
}

/// The scheme that a `proto` value names, quoted or not.
pub open spec fn proto_of(raw: Seq<u8>) -> Option<Scheme> {
    if is_quoted(raw) {
        if unescape(interior(raw)).len() > 64 {
            None
        } else {
            scheme_of(unescape(interior(raw)))
        }
    } else {
        scheme_of(raw)
    }
}

/// Reads a `proto` value. Anything but `http` and `https` says nothing.
fn parse_proto(raw: &[u8]) -> (r: Option<Scheme>)
    ensures
        r == proto_of(raw@),
{
    if raw.len() >= 2 && raw[0] == '"' as u8 && raw[raw.len() - 1] == '"' as u8 {
        let mut buf: [u8; 64] = [0;64];
        return match unescape_into(slice_subrange(raw, 1, raw.len() - 1), &mut buf) {
            Some(n) => value_matches_scheme(slice_subrange(buf.as_slice(), 0, n)),
            None => None,
        };
    }
    value_matches_scheme(raw)
}

// ---- one element ----

/// The parameters of an element seen so far.
pub struct Params {
    pub node: Option<NodeName>,
    pub proto: Option<Option<Scheme>>,
    /// The `host` value, still quoted.
    pub host: Option<Seq<u8>>,
    pub by: bool,
}

/// One more parameter. A known one may occur once; any other is ignored.
pub open spec fn param_step(p: Params, pair: Seq<u8>) -> Result<Params, RejectReason> {
    let t = trim(pair);
    let eq = find(t, '=' as u8, 0);
    if eq >= t.len() {
        Err(RejectReason::ForwardedSyntax)
    } else {
        let name = lower_all(trim(t.take(eq)));
        let value = trim(t.skip(eq + 1));
        if name == lower_all(ascii("for"@)) {
            if p.node is Some {
                Err(RejectReason::ForwardedDuplicateParam)
            } else {
                Ok(Params { node: Some(node_name(value)), ..p })
            }
        } else if name == lower_all(ascii("proto"@)) {
            if p.proto is Some {
                Err(RejectReason::ForwardedDuplicateParam)
            } else {
                Ok(Params { proto: Some(proto_of(value)), ..p })
            }
        } else if name == lower_all(ascii("host"@)) {
            if p.host is Some {
                Err(RejectReason::ForwardedDuplicateParam)
            } else {
                Ok(Params { host: Some(value), ..p })
            }
        } else if name == lower_all(ascii("by"@)) {
            if p.by {
                Err(RejectReason::ForwardedDuplicateParam)
            } else {
                Ok(Params { by: true, ..p })
            }
        } else {
            Ok(p)
        }
    }
}

/// The parameters from `i` on.
pub open spec fn params_from(p: Params, pairs: Seq<Seq<u8>>, i: int) -> Result<Params, RejectReason>
    decreases pairs.len() - i,
{
    if i >= pairs.len() {
        Ok(p)
    } else {
        match param_step(p, pairs[i]) {
            Err(e) => Err(e),
            Ok(q) => params_from(q, pairs, i + 1),
        }
    }
}

/// What one element of a `Forwarded` value says.
pub struct Element {
    pub node: NodeName,
    pub proto: Option<Scheme>,
    /// The `host` value, still quoted.
    pub host: Option<Seq<u8>>,
}

/// What one element of a `Forwarded` value says: parameters with semicolons
/// between them.
pub open spec fn element_of(raw: Seq<u8>) -> Result<Element, RejectReason> {
    let t = trim(raw);
    if t.len() == 0 {
        Err(RejectReason::ForwardedSyntax)
    } else {
        match params_from(
            Params { node: None, proto: None, host: None, by: false },
            top_split(t, ';' as u8),
            0,
        ) {
            Err(e) => Err(e),
            Ok(p) => Ok(
                Element {
                    node: match p.node {
                        Some(n) => n,
                        None => NodeName::Absent,
                    },
                    proto: match p.proto {
                        Some(x) => x,
                        None => None,
                    },
                    host: p.host,
                },
            ),
        }
    }
}

spec fn opt_seq(o: Option<&[u8]>) -> Option<Seq<u8>> {
    match o {
        Some(s) => Some(s@),
        None => None,
    }
}

proof fn lemma_trim_len(s: Seq<u8>)
    ensures
        trim(s).len() <= s.len(),
{
    crate::field::lemma_ows_from(s, 0);
    crate::field::lemma_ows_to(s, crate::field::ows_from(s, 0), s.len() as int);
}

fn parse_element<'a>(raw: &'a [u8]) -> (r: Result<
    (NodeName, Option<Scheme>, Option<&'a [u8]>),
    RejectReason,
>)
    ensures
        match r {
            Ok((node, proto, host)) => {
                &&& element_of(raw@) == Ok::<Element, RejectReason>(
                    Element { node, proto, host: opt_seq(host) },
                )
                &&& host matches Some(h) ==> h@.len() < raw@.len()
            },
            Err(e) => element_of(raw@) == Err::<Element, RejectReason>(e),
        },
{
    let trimmed = trim_ows(raw);
    if trimmed.len() == 0 {
        return Err(RejectReason::ForwardedSyntax);
    }
    let mut node: Option<NodeName> = None;
    let mut proto: Option<Option<Scheme>> = None;
    let mut host: Option<&'a [u8]> = None;
    let mut seen_by = false;
    let pairs = split_top(trimmed, ';' as u8);
    let ghost parts = views(pairs@);
    proof {
        lemma_trim_len(raw@);
    }
    let ghost all = params_from(
        Params { node: None, proto: None, host: None, by: false },
        parts,
        0,
    );
    let mut i: usize = 0;
    while i < pairs.len()
        invariant
            i <= pairs@.len(),
            parts == views(pairs@),
            trimmed@ == trim(raw@),
            0 < trimmed@.len() <= raw@.len(),
            parts == top_split(trimmed@, ';' as u8),
            forall|k: int| 0 <= k < pairs@.len() ==> (#[trigger] pairs@[k])@.len()
                <= trimmed@.len(),
            all == params_from(
                Params { node: None, proto: None, host: None, by: false },
                parts,
                0,
            ),
            all == params_from(
                Params { node, proto, host: opt_seq(host), by: seen_by },
                parts,
                i as int,
            ),
            host matches Some(h) ==> h@.len() < raw@.len(),
        decreases pairs@.len() - i,
    {
        let pair = trim_ows(pairs[i]);
        assert(parts[i as int] == pairs@[i as int]@);
        let eq: usize = index_from(pair, '=' as u8, 0);
        if eq == pair.len() {
            return Err(RejectReason::ForwardedSyntax);
        }
        let name = trim_ows(slice_subrange(pair, 0, eq));
        let rest = slice_subrange(pair, eq + 1, pair.len());
        let value = trim_ows(rest);
        proof {
            lemma_trim_len(pairs@[i as int]@);
            lemma_trim_len(rest@);
            assert(rest@ =~= pair@.skip(eq + 1));
        }
        if eq_ignore_case(name, "for".as_bytes()) {
            if node.is_some() {
                return Err(RejectReason::ForwardedDuplicateParam);
            }
            node = Some(parse_node_name(value));
        } else if eq_ignore_case(name, "proto".as_bytes()) {
            if proto.is_some() {
                return Err(RejectReason::ForwardedDuplicateParam);
            }
            proto = Some(parse_proto(value));
        } else if eq_ignore_case(name, "host".as_bytes()) {
            if host.is_some() {
                return Err(RejectReason::ForwardedDuplicateParam);
            }
            host = Some(value);
        } else if eq_ignore_case(name, "by".as_bytes()) {
            if seen_by {
                return Err(RejectReason::ForwardedDuplicateParam);
            }
            seen_by = true;
        }
        i += 1;
    }
    let node: NodeName = match node {
        Some(n) => n,
        None => NodeName::Absent,
    };
    let proto: Option<Scheme> = match proto {
        Some(p) => p,
        None => None,
    };
    Ok((node, proto, host))
}

// ---- the chain ----

/// What a [`ForwardedChain`] holds.
pub struct ChainView {
    pub elements: Seq<ForwardedElement>,
    /// The last `host` claimed, without quotes.
    pub host: Option<Seq<u8>>,
    /// Every `host` claimed, without quotes, one behind the other. Those
    /// before the last say nothing, but chains that differ in them are not
    /// equal.
    pub hosts: Seq<u8>,
    /// The bytes of all field values.
    pub bytes: int,
}

/// Charges one field value. One that would pass the limit is refused unread.
pub open spec fn charged(c: ChainView, len: int, limits: Limits) -> Result<ChainView, RejectReason> {
    if c.bytes + len > limits.max_forwarded_bytes {
        Err(RejectReason::ForwardedBytesLimit)
    } else {
        Ok(ChainView { bytes: c.bytes + len, ..c })
    }
}

/// One more element of a `Forwarded` value.
pub open spec fn forwarded_step(c: ChainView, raw: Seq<u8>, limits: Limits) -> Result<
    ChainView,
    RejectReason,
> {
    if c.elements.len() >= limits.max_forwarded_elements {
        Err(RejectReason::ForwardedElementLimit)
    } else {
        match element_of(raw) {
            Err(e) => Err(e),
            Ok(e) => Ok(
                ChainView {
                    elements: c.elements.push(
                        ForwardedElement { node: e.node, proto: e.proto, from_xff: false },
                    ),
                    host: match e.host {
                        Some(h) => Some(unquoted(h)),
                        None => c.host,
                    },
                    hosts: match e.host {
                        Some(h) => c.hosts + unquoted(h),
                        None => c.hosts,
                    },
                    ..c
                },
            ),
        }
    }
}

/// One more element of an `X-Forwarded-For` value.
pub open spec fn xff_step(c: ChainView, raw: Seq<u8>, limits: Limits) -> Result<
    ChainView,
    RejectReason,
> {
    if c.elements.len() >= limits.max_forwarded_elements {
        Err(RejectReason::ForwardedElementLimit)
    } else if trim(raw).len() == 0 {
        Err(RejectReason::ForwardedSyntax)
    } else {
        Ok(
            ChainView {
                elements: c.elements.push(
                    ForwardedElement { node: node_name(trim(raw)), proto: None, from_xff: true },
                ),
                ..c
            },
        )
    }
}

/// One more element of a value of either field.
#[verifier::opaque]
pub open spec fn span_step(c: ChainView, raw: Seq<u8>, xff: bool, limits: Limits) -> Result<
    ChainView,
    RejectReason,
> {
    if xff {
        xff_step(c, raw, limits)
    } else {
        forwarded_step(c, raw, limits)
    }
}

/// The `host` claim of one element of a `Forwarded` value, without quotes, or
/// nothing.
#[verifier::opaque]
pub open spec fn span_host(raw: Seq<u8>) -> Seq<u8> {
    match element_of(raw) {
        Ok(e) => match e.host {
            Some(h) => unquoted(h),
            None => Seq::empty(),
        },
        Err(_) => Seq::empty(),
    }
}

/// The elements of one value from `i` on.
pub open spec fn spans_from(
    c: ChainView,
    spans: Seq<Seq<u8>>,
    i: int,
    xff: bool,
    limits: Limits,
) -> Result<ChainView, RejectReason>
    decreases spans.len() - i,
{
    if i >= spans.len() {
        Ok(c)
    } else {
        match span_step(c, spans[i], xff, limits) {
            Err(e) => Err(e),
            Ok(d) => spans_from(d, spans, i + 1, xff, limits),
        }
    }
}

/// The field lines of one field from `i` on, as one list.
pub open spec fn lines_from(
    c: ChainView,
    lines: Seq<Seq<u8>>,
    i: int,
    xff: bool,
    limits: Limits,
) -> Result<ChainView, RejectReason>
    decreases lines.len() - i,
{
    if i >= lines.len() {
        Ok(c)
    } else {
        match charged(c, lines[i].len() as int, limits) {
            Err(e) => Err(e),
            Ok(d) => match spans_from(d, top_split(lines[i], ',' as u8), 0, xff, limits) {
                Err(e) => Err(e),
                Ok(f) => lines_from(f, lines, i + 1, xff, limits),
            },
        }
    }
}

/// The `host` claims of one `Forwarded` value from element `i` on, without
/// quotes and one behind the other, up to the first element that is refused.
pub open spec fn spans_hosts(c: ChainView, spans: Seq<Seq<u8>>, i: int, limits: Limits) -> Seq<u8>
    decreases spans.len() - i,
{
    if i >= spans.len() {
        Seq::empty()
    } else {
        match span_step(c, spans[i], false, limits) {
            Err(_) => Seq::empty(),
            Ok(d) => span_host(spans[i]) + spans_hosts(d, spans, i + 1, limits),
        }
    }
}

/// The `host` claims of the `Forwarded` lines from `i` on, up to the first
/// element or line that is refused.
pub open spec fn lines_hosts(c: ChainView, lines: Seq<Seq<u8>>, i: int, limits: Limits) -> Seq<u8>
    decreases lines.len() - i,
{
    if i >= lines.len() {
        Seq::empty()
    } else {
        match charged(c, lines[i].len() as int, limits) {
            Err(_) => Seq::empty(),
            Ok(d) => {
                let spans = top_split(lines[i], ',' as u8);
                spans_hosts(d, spans, 0, limits) + (match spans_from(d, spans, 0, false, limits) {
                    Err(_) => Seq::empty(),
                    Ok(f) => lines_hosts(f, lines, i + 1, limits),
                })
            },
        }
    }
}

/// The charge for lines that are not all read.
pub open spec fn charge_lines(c: ChainView, lines: Seq<Seq<u8>>, i: int, limits: Limits) -> Result<
    ChainView,
    RejectReason,
>
    decreases lines.len() - i,
{
    if i >= lines.len() {
        Ok(c)
    } else {
        match charged(c, lines[i].len() as int, limits) {
            Err(e) => Err(e),
            Ok(d) => charge_lines(d, lines, i + 1, limits),
        }
    }
}

/// The protocol of the last `X-Forwarded-Proto` token, given to the last
/// element if it has none of its own.
pub open spec fn with_proto(c: ChainView, xfp: Seq<Seq<u8>>) -> ChainView {
    if xfp.len() == 0 || c.elements.len() == 0 {
        c
    } else {
        let token = trim(top_split(xfp.last(), ',' as u8).last());
        let last = c.elements.last();
        if proto_of(token) is Some && last.proto is None {
            ChainView {
                elements: c.elements.drop_last().push(
                    ForwardedElement { proto: proto_of(token), ..last },
                ),
                ..c
            }
        } else {
            c
        }
    }
}

/// An empty chain.
pub open spec fn no_chain() -> ChainView {
    ChainView { elements: Seq::empty(), host: None, hosts: Seq::empty(), bytes: 0 }
}

/// The chain that the lines of the three fields claim: the `Forwarded`
/// elements before those of `X-Forwarded-For`, whatever order they came in.
pub open spec fn chain_of(
    forwarded: Seq<Seq<u8>>,
    xff: Seq<Seq<u8>>,
    xfp: Seq<Seq<u8>>,
    limits: Limits,
) -> Result<ChainView, RejectReason> {
    match lines_from(no_chain(), forwarded, 0, false, limits) {
        Err(e) => Err(e),
        Ok(a) => match lines_from(a, xff, 0, true, limits) {
            Err(e) => Err(e),
            Ok(b) => match charge_lines(b, xfp, 0, limits) {
                Err(e) => Err(e),
                Ok(c) => Ok(with_proto(c, xfp)),
            },
        },
    }
}

/// The chain that the fields of a section claim.
pub open spec fn chain_of_section(fields: Seq<Field>, limits: Limits) -> Result<
    ChainView,
    RejectReason,
> {
    chain_of(
        values_of(fields, KnownHeader::Forwarded),
        values_of(fields, KnownHeader::XForwardedFor),
        values_of(fields, KnownHeader::XForwardedProto),
        limits,
    )
}

/// What reading a chain leaves behind in the buffer: nothing, unless the chain
/// is refused. The hosts claimed before that then stay there.
pub open spec fn chain_left(
    forwarded: Seq<Seq<u8>>,
    xff: Seq<Seq<u8>>,
    xfp: Seq<Seq<u8>>,
    limits: Limits,
) -> Seq<u8> {
    match chain_of(forwarded, xff, xfp, limits) {
        Ok(_) => Seq::empty(),
        Err(_) => lines_hosts(no_chain(), forwarded, 0, limits),
    }
}

/// What reading the chain of a section leaves behind in the buffer.
pub open spec fn section_left(fields: Seq<Field>, limits: Limits) -> Seq<u8> {
    chain_left(
        values_of(fields, KnownHeader::Forwarded),
        values_of(fields, KnownHeader::XForwardedFor),
        values_of(fields, KnownHeader::XForwardedProto),
        limits,
    )
}

/// The parsed forwarding chain, left to right. The first element is the hop
/// claimed to be nearest to the client, the last the one nearest to this
/// proxy: a walk over it begins at the end.
#[derive(Debug)]
pub struct ForwardedChain {
    elements: ElementList,
    /// Where the last `host` claimed stands in `host_buf`: its offset and its
    /// length.
    host_claim: Option<(u32, u16)>,
    host_buf: Bytes,
    bytes: u32,
}

/// The bytes of `buf` at an offset and of a length.
spec fn claimed(span: Option<(u32, u16)>, buf: Seq<u8>) -> Option<Seq<u8>> {
    match span {
        Some((offset, len)) => Some(buf.subrange(offset as int, offset + len)),
        None => None,
    }
}

/// Whether a claim stands at the end of `buf`, and nothing does without one.
spec fn claim_ok(span: Option<(u32, u16)>, buf: Seq<u8>) -> bool {
    match span {
        Some((offset, len)) => offset + len == buf.len(),
        None => buf.len() == 0,
    }
}

impl View for ForwardedChain {
    type V = ChainView;

    closed spec fn view(&self) -> ChainView {
        ChainView {
            elements: chain_elements(self.elements),
            host: claimed(self.host_claim, frozen(self.host_buf)),
            hosts: frozen(self.host_buf),
            bytes: self.bytes as int,
        }
    }
}

impl Clone for ForwardedChain {
    fn clone(&self) -> (r: Self)
        ensures
            r@ == self@,
    {
        proof {
            use_type_invariant(self);
        }
        let items = self.elements.as_slice();
        let mut elements = ElementList::new();
        let mut i: usize = 0;
        while i < items.len()
            invariant
                i <= items@.len() <= list_cap(),
                chain_elements(elements) == items@.take(i as int),
            decreases items@.len() - i,
        {
            elements.push(items[i]);
            i += 1;
            assert(items@.take(i as int) =~= items@.take(i - 1).push(items@[i - 1]));
        }
        assert(items@.take(i as int) =~= items@);
        ForwardedChain {
            elements,
            host_claim: self.host_claim,
            host_buf: self.host_buf.clone(),
            bytes: self.bytes,
        }
    }
}

impl Default for ForwardedChain {
    fn default() -> (r: Self)
        ensures
            r@ == no_chain(),
    {
        ForwardedChain {
            elements: ElementList::new(),
            host_claim: None,
            host_buf: Bytes::new(),
            bytes: 0,
        }
    }
}

impl PartialEq for ForwardedChain {
    fn eq(&self, other: &Self) -> (r: bool) {
        let a = self.elements.as_slice();
        let b = other.elements.as_slice();
        proof {
            use_type_invariant(self);
            use_type_invariant(other);
        }
        if a.len() != b.len() || self.bytes != other.bytes {
            return false;
        }
        if !bytes_eq(bytes_of(&self.host_buf), bytes_of(&other.host_buf)) {
            return false;
        }
        match (self.host_claim, other.host_claim) {
            (None, None) => {},
            (Some(x), Some(y)) => {
                if x.0 != y.0 || x.1 != y.1 {
                    proof {
                        let buf = self@.hosts;
                        assert(buf.subrange(x.0 as int, x.0 + x.1).len() == x.1);
                        assert(buf.subrange(y.0 as int, y.0 + y.1).len() == y.1);
                    }
                    return false;
                }
            },
            _ => {
                return false;
            },
        }
        let mut i: usize = 0;
        while i < a.len()
            invariant
                i <= a@.len() == b@.len(),
                a@ == self@.elements,
                b@ == other@.elements,
                self@.bytes == other@.bytes,
                self@.host == other@.host,
                self@.hosts == other@.hosts,
                forall|j: int| 0 <= j < i ==> a@[j] == b@[j],
            decreases a@.len() - i,
        {
            if a[i] != b[i] {
                return false;
            }
            i += 1;
        }
        assert(a@ =~= b@);
        true
    }
}

impl vstd::std_specs::cmp::PartialEqSpecImpl for ForwardedChain {
    open spec fn obeys_eq_spec() -> bool {
        true
    }

    open spec fn eq_spec(&self, other: &Self) -> bool {
        self@ == other@
    }
}

impl Eq for ForwardedChain {

}

/// The sum of the lengths of the first `n` lines.
pub open spec fn lines_len(lines: Seq<Seq<u8>>, n: int) -> int
    decreases n,
{
    if n <= 0 {
        0
    } else {
        lines_len(lines, n - 1) + lines[n - 1].len()
    }
}

pub proof fn lemma_lines_len_mono(lines: Seq<Seq<u8>>, n: int, m: int)
    requires
        0 <= n <= m,
    ensures
        lines_len(lines, n) <= lines_len(lines, m),
    decreases m,
{
    if n < m {
        lemma_lines_len_mono(lines, n, m - 1);
    }
}

/// The sum of the lengths goes on behind the first line.
pub proof fn lemma_lines_len_first(lines: Seq<Seq<u8>>, n: int)
    requires
        0 < n <= lines.len(),
    ensures
        lines_len(lines, n) == lines[0].len() + lines_len(lines.skip(1), n - 1),
    decreases n,
{
    if n > 1 {
        lemma_lines_len_first(lines, n - 1);
        assert(lines.skip(1)[n - 2] == lines[n - 1]);
    } else {
        assert(lines_len(lines, 0) == 0);
    }
}

/// Parts are no longer than what was split.
proof fn lemma_parts_len(s: Seq<u8>, delim: u8)
    ensures
        lines_len(top_split(s, delim), top_split(s, delim).len() as int) <= s.len(),
    decreases s.len(),
{
    let at = top_find(s, delim, 0, false, false);
    let parts = top_split(s, delim);
    lemma_top_find(s, delim, 0, false, false);
    lemma_lines_len_first(parts, parts.len() as int);
    if at < s.len() {
        lemma_parts_len(s.skip(at + 1), delim);
        assert(parts.skip(1) =~= top_split(s.skip(at + 1), delim));
    } else {
        assert(lines_len(parts.skip(1), 0) == 0);
    }
}

proof fn lemma_unescape_len(s: Seq<u8>)
    ensures
        unescape(s).len() <= s.len(),
    decreases s.len(),
{
    if s.len() > 0 {
        if s[0] == '\\' as u8 {
            if s.len() > 1 {
                lemma_unescape_len(s.skip(2));
            }
        } else {
            lemma_unescape_len(s.skip(1));
        }
    }
}

proof fn lemma_unquoted_len(s: Seq<u8>)
    ensures
        unquoted(s).len() <= s.len(),
{
    if is_quoted(s) {
        lemma_unescape_len(interior(s));
    }
}

/// The state of a chain under construction. The hosts claimed so far stand at
/// the end of the buffer that it is read into.
struct Partial {
    elements: ElementList,
    host: Option<(u32, u16)>,
    bytes: u32,
}

impl Partial {
    spec fn state(&self, hosts: Seq<u8>) -> ChainView {
        ChainView {
            elements: chain_elements(self.elements),
            host: claimed(self.host, hosts),
            hosts,
            bytes: self.bytes as int,
        }
    }

    spec fn wf(&self, hosts: Seq<u8>, limits: Limits) -> bool {
        &&& self.bytes <= limits.max_forwarded_bytes
        &&& claim_ok(self.host, hosts)
        &&& hosts.len() <= self.bytes
        &&& chain_elements(self.elements).len() <= limits.max_forwarded_elements
    }

    /// Charges a value before it is read.
    fn charge_bytes(
        &mut self,
        additional: usize,
        limits: &ClampedLimits,
        Ghost(hosts): Ghost<Seq<u8>>,
    ) -> (r: Result<(), RejectReason>)
        requires
            old(self).wf(hosts, limits@),
        ensures
            final(self).wf(hosts, limits@),
            match r {
                Ok(()) => charged(old(self).state(hosts), additional as int, limits@) == Ok::<
                    ChainView,
                    RejectReason,
                >(final(self).state(hosts)) && additional <= limits@.max_forwarded_bytes,
                Err(e) => charged(old(self).state(hosts), additional as int, limits@) == Err::<
                    ChainView,
                    RejectReason,
                >(e),
            },
    {
        let max: u32 = limits.get().max_forwarded_bytes;
        if additional > max as usize || additional as u32 > max - self.bytes {
            return Err(RejectReason::ForwardedBytesLimit);
        }
        self.bytes = self.bytes + additional as u32;
        Ok(())
    }

    /// Appends one element. The first that does not fit inline makes room for
    /// as many as the limit allows.
    fn push_element(
        &mut self,
        element: ForwardedElement,
        limits: &ClampedLimits,
        Ghost(hosts): Ghost<Seq<u8>>,
    )
        requires
            old(self).wf(hosts, limits@),
            chain_elements(old(self).elements).len() < limits@.max_forwarded_elements,
        ensures
            final(self).wf(hosts, limits@),
            final(self).state(hosts) == (ChainView {
                elements: old(self).state(hosts).elements.push(element),
                ..old(self).state(hosts)
            }),
            final(self).host == old(self).host,
    {
        let max: usize = limits.get().max_forwarded_elements as usize;
        let len: usize = self.elements.as_slice().len();
        if len == INLINE_ELEMENTS {
            self.elements.reserve(max - len);
        }
        self.elements.push(element);
    }

    /// Writes a claimed host to the end of `out`.
    fn claim_host(&mut self, raw: &[u8], base: usize, out: &mut BytesMut, limits: &ClampedLimits)
        requires
            base <= content(*old(out)).len(),
            old(self).wf(content(*old(out)).skip(base as int), limits@),
            content(*old(out)).len() - base + raw@.len() <= old(self).bytes,
            raw@.len() <= u16::MAX,
            has_room(base as int, limits@.max_forwarded_bytes as int),
        ensures
            content(*final(out)) == content(*old(out)) + unquoted(raw@),
            final(self).wf(content(*final(out)).skip(base as int), limits@),
            final(self).elements == old(self).elements,
            final(self).bytes == old(self).bytes,
            unquoted(raw@).len() <= raw@.len(),
            final(self).state(content(*final(out)).skip(base as int)) == (ChainView {
                host: Some(unquoted(raw@)),
                hosts: content(*old(out)).skip(base as int) + unquoted(raw@),
                ..old(self).state(content(*old(out)).skip(base as int))
            }),
    {
        let start: usize = out.len();
        let ghost before = content(*out);
        proof {
            lemma_unquoted_len(raw@);
        }
        write_unquoted(raw, out);
        let written: usize = out.len() - start;
        self.host = Some(((start - base) as u32, written as u16));
        proof {
            let hosts = before.skip(base as int) + unquoted(raw@);
            assert(content(*out).skip(base as int) =~= hosts);
            assert(hosts.subrange(start - base, start - base + written) =~= unquoted(raw@));
        }
    }

    /// Reads one element of a value. A host is written to `out`.
    fn read_span(
        &mut self,
        span: &[u8],
        xff: bool,
        limits: &ClampedLimits,
        base: usize,
        out: &mut BytesMut,
    ) -> (r: Result<(), RejectReason>)
        requires
            base <= content(*old(out)).len(),
            old(self).wf(content(*old(out)).skip(base as int), limits@),
            content(*old(out)).len() - base + span@.len() <= old(self).bytes,
            has_room(base as int, limits@.max_forwarded_bytes as int),
        ensures
            base <= content(*final(out)).len(),
            final(self).wf(content(*final(out)).skip(base as int), limits@),
            final(self).bytes == old(self).bytes,
            content(*final(out)).len() <= content(*old(out)).len() + span@.len(),
            match r {
                Ok(()) => {
                    &&& span_step(
                        old(self).state(content(*old(out)).skip(base as int)),
                        span@,
                        xff,
                        limits@,
                    ) == Ok::<ChainView, RejectReason>(
                        final(self).state(content(*final(out)).skip(base as int)),
                    )
                    &&& content(*final(out)) == if xff {
                        content(*old(out))
                    } else {
                        content(*old(out)) + span_host(span@)
                    }
                },
                Err(e) => {
                    &&& span_step(
                        old(self).state(content(*old(out)).skip(base as int)),
                        span@,
                        xff,
                        limits@,
                    ) == Err::<ChainView, RejectReason>(e)
                    &&& content(*final(out)) == content(*old(out))
                },
            },
    {
        let ghost held = content(*out);
        let ghost hosts = held.skip(base as int);
        proof {
            reveal(span_step);
            reveal(span_host);
        }
        if self.elements.as_slice().len() >= limits.get().max_forwarded_elements as usize {
            return Err(RejectReason::ForwardedElementLimit);
        }
        if xff {
            let token = trim_ows(span);
            if token.len() == 0 {
                return Err(RejectReason::ForwardedSyntax);
            }
            let node = parse_node_name(token);
            self.push_element(
                ForwardedElement { node, proto: None, from_xff: true },
                limits,
                Ghost(hosts),
            );
        } else {
            let (node, proto, host) = parse_element(span)?;
            if let Some(raw) = host {
                self.claim_host(raw, base, out, limits);
            }
            let ghost hosts1 = content(*out).skip(base as int);
            self.push_element(
                ForwardedElement { node, proto, from_xff: false },
                limits,
                Ghost(hosts1),
            );
            proof {
                assert(content(*out) =~= held + span_host(span@));
                assert(hosts1 =~= hosts + span_host(span@));
                assert(hosts + Seq::<u8>::empty() =~= hosts);
            }
        }
        Ok(())
    }

    /// Reads the lines of one field. Hosts are written to `out`, from `base`
    /// on.
    fn read_lines(
        &mut self,
        lines: &[&[u8]],
        xff: bool,
        limits: &ClampedLimits,
        base: usize,
        out: &mut BytesMut,
    ) -> (r: Result<(), RejectReason>)
        requires
            base <= content(*old(out)).len(),
            old(self).wf(content(*old(out)).skip(base as int), limits@),
            has_room(base as int, limits@.max_forwarded_bytes as int),
        ensures
            limits@.within(Limits::ceiling_spec()),
            base <= content(*final(out)).len(),
            final(self).wf(content(*final(out)).skip(base as int), limits@),
            content(*final(out)) == if xff {
                content(*old(out))
            } else {
                content(*old(out)) + lines_hosts(
                    old(self).state(content(*old(out)).skip(base as int)),
                    views(lines@),
                    0,
                    limits@,
                )
            },
            match r {
                Ok(()) => lines_from(
                    old(self).state(content(*old(out)).skip(base as int)),
                    views(lines@),
                    0,
                    xff,
                    limits@,
                ) == Ok::<ChainView, RejectReason>(
                    final(self).state(content(*final(out)).skip(base as int)),
                ),
                Err(e) => lines_from(
                    old(self).state(content(*old(out)).skip(base as int)),
                    views(lines@),
                    0,
                    xff,
                    limits@,
                ) == Err::<ChainView, RejectReason>(e),
            },
    {
        let ghost out0 = content(*out);
        let ghost c0 = self.state(out0.skip(base as int));
        let ghost all = lines_from(c0, views(lines@), 0, xff, limits@);
        let ghost left = if xff {
            Seq::empty()
        } else {
            lines_hosts(c0, views(lines@), 0, limits@)
        };
        let _limits = limits.get();
        let mut i: usize = 0;
        while i < lines.len()
            invariant
                i <= lines@.len(),
                base <= content(*out).len(),
                self.wf(content(*out).skip(base as int), limits@),
                has_room(base as int, limits@.max_forwarded_bytes as int),
                limits@.within(Limits::ceiling_spec()),
                all == lines_from(c0, views(lines@), 0, xff, limits@),
                all == lines_from(
                    self.state(content(*out).skip(base as int)),
                    views(lines@),
                    i as int,
                    xff,
                    limits@,
                ),
                xff ==> left.len() == 0,
                !xff ==> left == lines_hosts(c0, views(lines@), 0, limits@),
                xff ==> content(*out) == out0,
                !xff ==> out0 + left == content(*out) + lines_hosts(
                    self.state(content(*out).skip(base as int)),
                    views(lines@),
                    i as int,
                    limits@,
                ),
                out0 == content(*old(out)),
                c0 == old(self).state(out0.skip(base as int)),
            decreases lines@.len() - i,
        {
            let value = lines[i];
            let ghost hosts0 = content(*out).skip(base as int);
            assert(views(lines@)[i as int] == value@);
            proof {
                if charged(self.state(hosts0), value@.len() as int, limits@) is Err {
                    assert(content(*out) =~= out0 + left);
                }
            }
            self.charge_bytes(value.len(), limits, Ghost(hosts0))?;
            let spans = split_top(value, ',' as u8);
            let ghost parts = views(spans@);
            let ghost d = self.state(hosts0);
            let ghost one = spans_from(d, parts, 0, xff, limits@);
            // What the lines behind this one write.
            let ghost more = match one {
                Err(_) => Seq::empty(),
                Ok(f) => lines_hosts(f, views(lines@), i + 1, limits@),
            };
            let mut j: usize = 0;
            proof {
                lemma_parts_len(value@, ',' as u8);
                assert(lines_len(parts, 0) == 0);
                if !xff {
                    assert(content(*out) + (spans_hosts(d, parts, 0, limits@) + more) =~= content(
                        *out,
                    ) + spans_hosts(d, parts, 0, limits@) + more);
                }
            }
            while j < spans.len()
                invariant
                    j <= spans@.len(),
                    i < lines@.len(),
                    base <= content(*out).len(),
                    self.wf(content(*out).skip(base as int), limits@),
                    has_room(base as int, limits@.max_forwarded_bytes as int),
                    limits@.within(Limits::ceiling_spec()),
                    parts == views(spans@),
                    parts == top_split(value@, ',' as u8),
                    value@.len() <= limits@.max_forwarded_bytes,
                    lines_len(parts, parts.len() as int) <= value@.len(),
                    content(*out).len() - base + value@.len() - lines_len(parts, j as int)
                        <= self.bytes,
                    all == lines_from(c0, views(lines@), 0, xff, limits@),
                    one is Err ==> all == one,
                    one matches Ok(f) ==> all == lines_from(f, views(lines@), i + 1, xff, limits@),
                    one == spans_from(
                        self.state(content(*out).skip(base as int)),
                        parts,
                        j as int,
                        xff,
                        limits@,
                    ),
                    more == (match one {
                        Err(_) => Seq::empty(),
                        Ok(f) => lines_hosts(f, views(lines@), i + 1, limits@),
                    }),
                    xff ==> left.len() == 0,
                    !xff ==> left == lines_hosts(c0, views(lines@), 0, limits@),
                    xff ==> content(*out) == out0,
                    !xff ==> out0 + left == content(*out) + spans_hosts(
                        self.state(content(*out).skip(base as int)),
                        parts,
                        j as int,
                        limits@,
                    ) + more,
                    out0 == content(*old(out)),
                    c0 == old(self).state(out0.skip(base as int)),
                decreases spans@.len() - j,
            {
                let span = spans[j];
                assert(parts[j as int] == span@);
                let ghost held = content(*out);
                let ghost hosts = held.skip(base as int);
                let ghost c = self.state(hosts);
                proof {
                    lemma_lines_len_mono(parts, j + 1, parts.len() as int);
                    if !xff && span_step(c, span@, xff, limits@) is Err {
                        assert(held =~= out0 + left);
                    }
                }
                self.read_span(span, xff, limits, base, out)?;
                proof {
                    if !xff {
                        let rest = spans_hosts(
                            self.state(content(*out).skip(base as int)),
                            parts,
                            j + 1,
                            limits@,
                        );
                        assert(held + (span_host(span@) + rest) + more =~= content(*out) + rest
                            + more);
                    }
                }
                j += 1;
            }
            proof {
                let now = content(*out);
                if !xff {
                    assert(now + spans_hosts(
                        self.state(now.skip(base as int)),
                        parts,
                        j as int,
                        limits@,
                    ) + more =~= now + more);
                }
            }
            i += 1;
        }
        assert(content(*out) + Seq::<u8>::empty() =~= content(*out));
        Ok(())
    }

    /// Charges the lines of `X-Forwarded-Proto`, and gives what the last of
    /// them says to the last element.
    fn read_protos(
        &mut self,
        lines: &[&[u8]],
        limits: &ClampedLimits,
        Ghost(hosts): Ghost<Seq<u8>>,
    ) -> (r: Result<(), RejectReason>)
        requires
            old(self).wf(hosts, limits@),
            limits@.within(Limits::ceiling_spec()),
        ensures
            final(self).wf(hosts, limits@),
            match r {
                Ok(()) => {
                    let c = charge_lines(old(self).state(hosts), views(lines@), 0, limits@);
                    &&& c is Ok
                    &&& final(self).state(hosts) == with_proto(c->Ok_0, views(lines@))
                },
                Err(e) => charge_lines(old(self).state(hosts), views(lines@), 0, limits@) == Err::<
                    ChainView,
                    RejectReason,
                >(e),
            },
    {
        let ghost xfp = views(lines@);
        let ghost start = self.state(hosts);
        let mut i: usize = 0;
        while i < lines.len()
            invariant
                i <= lines@.len(),
                self.wf(hosts, limits@),
                xfp == views(lines@),
                start == old(self).state(hosts),
                charge_lines(start, xfp, 0, limits@) == charge_lines(
                    self.state(hosts),
                    xfp,
                    i as int,
                    limits@,
                ),
            decreases lines@.len() - i,
        {
            assert(xfp[i as int] == lines@[i as int]@);
            self.charge_bytes(lines[i].len(), limits, Ghost(hosts))?;
            i += 1;
        }
        let ghost before = self.state(hosts);
        if lines.len() > 0 {
            let spans = split_top(lines[lines.len() - 1], ',' as u8);
            let token = trim_ows(spans[spans.len() - 1]);
            proof {
                assert(xfp.last() == lines@[lines@.len() - 1]@);
                assert(views(spans@).last() == spans@[spans@.len() - 1]@);
            }
            if let Some(scheme) = parse_proto(token) {
                if let Some(last) = self.elements.pop() {
                    let proto = match last.proto {
                        Some(own) => Some(own),
                        None => Some(scheme),
                    };
                    self.elements.push(ForwardedElement { proto, ..last });
                    proof {
                        assert(before.elements.drop_last().push(last) =~= before.elements);
                    }
                }
            }
        }
        assert(self.state(hosts) == with_proto(before, xfp));
        Ok(())
    }
}

impl ForwardedChain {
    #[verifier::type_invariant]
    closed spec fn inv(self) -> bool {
        &&& chain_elements(self.elements).len() <= list_cap()
        &&& claim_ok(self.host_claim, frozen(self.host_buf))
    }

    /// Reads every `Forwarded`, `X-Forwarded-For` and `X-Forwarded-Proto`
    /// line, each list in the order the lines arrived, into one chain.
    ///
    /// The claimed hosts are built at the end of `out` and taken from there.
    /// `out` holds afterwards what it held before, unless the chain is
    /// refused: the hosts claimed up to there then stay behind.
    pub fn parse_into(
        forwarded_values: &[&[u8]],
        xff_values: &[&[u8]],
        xfp_values: &[&[u8]],
        limits: &ClampedLimits,
        out: &mut BytesMut,
    ) -> (r: Result<ForwardedChain, RejectReason>)
        requires
            has_room(content(*old(out)).len() as int, limits@.max_forwarded_bytes as int),
        ensures
            content(*final(out)) == content(*old(out)) + chain_left(
                views(forwarded_values@),
                views(xff_values@),
                views(xfp_values@),
                limits@,
            ),
            match r {
                Ok(c) => chain_of(
                    views(forwarded_values@),
                    views(xff_values@),
                    views(xfp_values@),
                    limits@,
                ) == Ok::<ChainView, RejectReason>(c@),
                Err(e) => chain_of(
                    views(forwarded_values@),
                    views(xff_values@),
                    views(xfp_values@),
                    limits@,
                ) == Err::<ChainView, RejectReason>(e),
            },
    {
        let base: usize = out.len();
        let ghost out0 = content(*out);
        let mut p = Partial { elements: ElementList::new(), host: None, bytes: 0 };
        let ghost lines = views(forwarded_values@);
        let ghost left = lines_hosts(no_chain(), lines, 0, limits@);
        proof {
            assert(out0.skip(base as int) =~= Seq::<u8>::empty());
            assert(p.state(out0.skip(base as int)) == no_chain());
        }
        p.read_lines(forwarded_values, false, limits, base, out)?;
        p.read_lines(xff_values, true, limits, base, out)?;
        let ghost hosts = content(*out).skip(base as int);
        proof {
            assert(hosts =~= left);
        }
        p.read_protos(xfp_values, limits, Ghost(hosts))?;
        let host_buf: Bytes = match p.host {
            Some(_) => out.split_off(base).freeze(),
            None => Bytes::new(),
        };
        proof {
            assert(frozen(host_buf) =~= hosts);
            assert(content(*out) =~= out0 + Seq::<u8>::empty());
        }
        Ok(ForwardedChain { elements: p.elements, host_claim: p.host, host_buf, bytes: p.bytes })
    }

    /// Reads the chain from the fields of a section.
    pub fn from_section(fields: &FieldSection, limits: &ClampedLimits, out: &mut BytesMut) -> (r:
        Result<ForwardedChain, RejectReason>)
        requires
            has_room(content(*old(out)).len() as int, limits@.max_forwarded_bytes as int),
        ensures
            content(*final(out)) == content(*old(out)) + section_left(fields@, limits@),
            match r {
                Ok(c) => chain_of_section(fields@, limits@) == Ok::<ChainView, RejectReason>(c@),
                Err(e) => chain_of_section(fields@, limits@) == Err::<ChainView, RejectReason>(e),
            },
    {
        let forwarded = fields.get_all_known(KnownHeader::Forwarded);
        let xff = fields.get_all_known(KnownHeader::XForwardedFor);
        let xfp = fields.get_all_known(KnownHeader::XForwardedProto);
        ForwardedChain::parse_into(
            forwarded.as_slice(),
            xff.as_slice(),
            xfp.as_slice(),
            limits,
            out,
        )
    }

    /// The elements, left to right.
    #[must_use]
    pub fn elements(&self) -> (r: &[ForwardedElement])
        ensures
            r@ == self@.elements,
    {
        self.elements.as_slice()
    }

    /// The number of elements.
    #[must_use]
    pub fn len(&self) -> (r: usize)
        ensures
            r == self@.elements.len(),
    {
        self.elements.as_slice().len()
    }

    /// Whether there is no element.
    #[must_use]
    pub fn is_empty(&self) -> (r: bool)
        ensures
            r == (self@.elements.len() == 0),
    {
        self.elements.as_slice().len() == 0
    }

    /// The bytes of all field values.
    #[must_use]
    pub fn bytes(&self) -> (r: u32)
        ensures
            r == self@.bytes,
    {
        self.bytes
    }

    /// The last `host` claimed. Nothing is routed by it.
    #[must_use]
    pub fn host_claim(&self) -> (r: Option<&[u8]>)
        ensures
            match r {
                Some(h) => self@.host == Some(h@),
                None => self@.host is None,
            },
    {
        proof {
            use_type_invariant(self);
        }
        match self.host_claim {
            Some((offset, len)) => {
                let buf = bytes_of(&self.host_buf);
                let start: usize = offset as usize;
                assert(buf@.len() == buf.len() == offset + len);
                // The last claim is the last thing written.
                Some(slice_subrange(buf, start, buf.len()))
            },
            None => None,
        }
    }
}

/// Whether `after` is `before` with elements of one field appended, within
/// the limits.
spec fn extends(before: ChainView, after: ChainView, xff: bool, limits: Limits) -> bool {
    &&& before.elements.is_prefix_of(after.elements)
    &&& forall|i: int|
        before.elements.len() <= i < after.elements.len() ==> (
        #[trigger] after.elements[i]).from_xff == xff
    &&& after.elements.len() <= limits.max_forwarded_elements || after.elements.len()
        == before.elements.len()
}

proof fn lemma_extends_trans(a: ChainView, b: ChainView, c: ChainView, xff: bool, limits: Limits)
    requires
        extends(a, b, xff, limits),
        extends(b, c, xff, limits),
    ensures
        extends(a, c, xff, limits),
{
    assert(a.elements.is_prefix_of(c.elements)) by {
        assert(c.elements.take(a.elements.len() as int) =~= b.elements.take(
            a.elements.len() as int,
        ));
    }
    assert forall|i: int| a.elements.len() <= i < c.elements.len() implies (
    #[trigger] c.elements[i]).from_xff == xff by {
        if i < b.elements.len() {
            assert(c.elements[i] == b.elements[i]);
        }
    }
}

proof fn lemma_spans_extend(c: ChainView, spans: Seq<Seq<u8>>, i: int, xff: bool, limits: Limits)
    requires
        0 <= i,
        spans_from(c, spans, i, xff, limits) is Ok,
    ensures
        extends(c, spans_from(c, spans, i, xff, limits)->Ok_0, xff, limits),
        (spans_from(c, spans, i, xff, limits)->Ok_0).bytes == c.bytes,
    decreases spans.len() - i,
{
    if i < spans.len() {
        reveal(span_step);
        let d = span_step(c, spans[i], xff, limits)->Ok_0;
        assert(extends(c, d, xff, limits));
        lemma_spans_extend(d, spans, i + 1, xff, limits);
        lemma_extends_trans(c, d, spans_from(c, spans, i, xff, limits)->Ok_0, xff, limits);
    }
}

proof fn lemma_lines_extend(c: ChainView, lines: Seq<Seq<u8>>, i: int, xff: bool, limits: Limits)
    requires
        0 <= i <= lines.len(),
        lines_from(c, lines, i, xff, limits) is Ok,
        c.bytes <= limits.max_forwarded_bytes,
    ensures
        extends(c, lines_from(c, lines, i, xff, limits)->Ok_0, xff, limits),
        (lines_from(c, lines, i, xff, limits)->Ok_0).bytes == c.bytes + lines_len(
            lines,
            lines.len() as int,
        ) - lines_len(lines, i),
        (lines_from(c, lines, i, xff, limits)->Ok_0).bytes <= limits.max_forwarded_bytes,
    decreases lines.len() - i,
{
    if i < lines.len() {
        let d = charged(c, lines[i].len() as int, limits)->Ok_0;
        let spans = top_split(lines[i], ',' as u8);
        lemma_spans_extend(d, spans, 0, xff, limits);
        let f = spans_from(d, spans, 0, xff, limits)->Ok_0;
        lemma_lines_extend(f, lines, i + 1, xff, limits);
        lemma_extends_trans(c, f, lines_from(c, lines, i, xff, limits)->Ok_0, xff, limits);
    }
}

proof fn lemma_charge_lines(c: ChainView, lines: Seq<Seq<u8>>, i: int, limits: Limits)
    requires
        0 <= i <= lines.len(),
        charge_lines(c, lines, i, limits) is Ok,
        c.bytes <= limits.max_forwarded_bytes,
    ensures
        charge_lines(c, lines, i, limits)->Ok_0 == (ChainView {
            bytes: c.bytes + lines_len(lines, lines.len() as int) - lines_len(lines, i),
            ..c
        }),
        (charge_lines(c, lines, i, limits)->Ok_0).bytes <= limits.max_forwarded_bytes,
    decreases lines.len() - i,
{
    if i < lines.len() {
        lemma_charge_lines(
            charged(c, lines[i].len() as int, limits)->Ok_0,
            lines,
            i + 1,
            limits,
        );
    }
}

/// A chain holds no more elements than allowed, its lines no more bytes than
/// allowed, and every byte of every line is counted.
pub proof fn law_chain_is_bounded(
    forwarded: Seq<Seq<u8>>,
    xff: Seq<Seq<u8>>,
    xfp: Seq<Seq<u8>>,
    limits: Limits,
)
    requires
        chain_of(forwarded, xff, xfp, limits) is Ok,
    ensures
        ({
            let c = chain_of(forwarded, xff, xfp, limits)->Ok_0;
            &&& c.elements.len() <= limits.max_forwarded_elements
            &&& c.bytes <= limits.max_forwarded_bytes
            &&& c.bytes == lines_len(forwarded, forwarded.len() as int) + lines_len(
                xff,
                xff.len() as int,
            ) + lines_len(xfp, xfp.len() as int)
        }),
{
    lemma_lines_extend(no_chain(), forwarded, 0, false, limits);
    let a = lines_from(no_chain(), forwarded, 0, false, limits)->Ok_0;
    lemma_lines_extend(a, xff, 0, true, limits);
    let b = lines_from(a, xff, 0, true, limits)->Ok_0;
    lemma_charge_lines(b, xfp, 0, limits);
}

/// `Forwarded` elements stand before `X-Forwarded-For` elements, whatever
/// order the fields arrived in.
pub proof fn law_forwarded_precedes_xff(
    forwarded: Seq<Seq<u8>>,
    xff: Seq<Seq<u8>>,
    xfp: Seq<Seq<u8>>,
    limits: Limits,
    i: int,
    j: int,
)
    requires
        chain_of(forwarded, xff, xfp, limits) is Ok,
        0 <= i < j < (chain_of(forwarded, xff, xfp, limits)->Ok_0).elements.len(),
        (chain_of(forwarded, xff, xfp, limits)->Ok_0).elements[i].from_xff,
    ensures
        (chain_of(forwarded, xff, xfp, limits)->Ok_0).elements[j].from_xff,
{
    lemma_lines_extend(no_chain(), forwarded, 0, false, limits);
    let a = lines_from(no_chain(), forwarded, 0, false, limits)->Ok_0;
    lemma_lines_extend(a, xff, 0, true, limits);
    let b = lines_from(a, xff, 0, true, limits)->Ok_0;
    lemma_charge_lines(b, xfp, 0, limits);
    let c = chain_of(forwarded, xff, xfp, limits)->Ok_0;
    assert(c.elements[i].from_xff == b.elements[i].from_xff);
    assert(c.elements[j].from_xff == b.elements[j].from_xff);
    if i < a.elements.len() {
        assert(b.elements[i] == a.elements[i]);
        assert(!a.elements[i].from_xff);
    }
}

/// A field that is none of the three contributes nothing: without any of
/// them the chain is empty.
pub proof fn law_no_lines_no_chain(limits: Limits)
    ensures
        chain_of(Seq::empty(), Seq::empty(), Seq::empty(), limits) == Ok::<ChainView, RejectReason>(
            no_chain(),
        ),
{
}

/// Nothing but `Forwarded`, `X-Forwarded-For` and `X-Forwarded-Proto` is read
/// of a section: no other field, `X-Real-IP` among them, changes its chain.
pub proof fn law_chain_reads_three_fields(a: Seq<Field>, b: Seq<Field>, limits: Limits)
    requires
        values_of(a, KnownHeader::Forwarded) == values_of(b, KnownHeader::Forwarded),
        values_of(a, KnownHeader::XForwardedFor) == values_of(b, KnownHeader::XForwardedFor),
        values_of(a, KnownHeader::XForwardedProto) == values_of(b, KnownHeader::XForwardedProto),
    ensures
        chain_of_section(a, limits) == chain_of_section(b, limits),
{
}

} // verus!
