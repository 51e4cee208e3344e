//! IP addresses and ports as text.
use crate::ext::{content, has_room, put_u8};
use crate::net::{
    groups_of, groups_value, lemma_eight_groups, octets_of, octets_value, segments, IpAddr,
};
use crate::num::{
    all_digits, dec_text, dec_value, decimal_len, hex_len, hex_number, hex_text, law_hex_round_trip,
    lemma_dec_text_len, lemma_dec_value_bound, lemma_dec_value_step, lemma_hex_text_len, pow10,
    pow16, put_decimal, put_hex,
};
use crate::text::{
    digit, find_seq, hex, hex_value, is_digit, is_hex, lemma_find_seq, lemma_find_seq_is, occurs_at,
    split, split_on, views,
};
use bytes::BytesMut;
use vstd::prelude::*;
use vstd::slice::slice_subrange;

verus! {

/// One octet: one to three digits, no leading zero, at most 255.
pub open spec fn octet_of_text(s: Seq<u8>) -> Option<u8> {
    if 1 <= s.len() <= 3 && all_digits(s) && (s.len() == 1 || s[0] != '0' as u8) && dec_value(s)
        <= 255 {
        Some(dec_value(s) as u8)
    } else {
        None
    }
}

fn parse_octet(s: &[u8]) -> (r: Option<u8>)
    ensures
        r == octet_of_text(s@),
{
    if s.len() == 0 || s.len() > 3 {
        return None;
    }
    if s.len() > 1 && s[0] == '0' as u8 {
        return None;
    }
    let mut v: u16 = 0;
    let mut i: usize = 0;
    while i < s.len()
        invariant
            i <= s@.len() <= 3,
            all_digits(s@.take(i as int)),
            v == dec_value(s@.take(i as int)),
        decreases s@.len() - i,
    {
        if !digit(s[i]) {
            return None;
        }
        proof {
            lemma_dec_value_bound(s@.take(i as int));
            reveal_with_fuel(pow10, 4);
            lemma_dec_value_step(s@, i as int);
            assert(s@.take(i + 1) =~= s@.take(i as int).push(s@[i as int]));
        }
        v = v * 10 + (s[i] - '0' as u8) as u16;
        i += 1;
    }
    proof {
        assert(s@.take(i as int) =~= s@);
    }
    if v > 255 {
        None
    } else {
        Some(v as u8)
    }
}

/// An IPv4 address: four octets with dots between them.
pub open spec fn v4_of_text(s: Seq<u8>) -> Option<u32> {
    let p = split(s, '.' as u8);
    if p.len() == 4 && octet_of_text(p[0]) is Some && octet_of_text(p[1]) is Some && octet_of_text(
        p[2],
    ) is Some && octet_of_text(p[3]) is Some {
        Some(
            octets_value(
                octet_of_text(p[0])->Some_0 as int,
                octet_of_text(p[1])->Some_0 as int,
                octet_of_text(p[2])->Some_0 as int,
                octet_of_text(p[3])->Some_0 as int,
            ) as u32,
        )
    } else {
        None
    }
}

/// Reads an IPv4 address.
pub(crate) fn parse_v4(s: &[u8]) -> (r: Option<u32>)
    ensures
        r == v4_of_text(s@),
{
    let p = split_on(s, '.' as u8);
    let ghost parts = views(p@);
    if p.len() != 4 {
        return None;
    }
    match (parse_octet(p[0]), parse_octet(p[1]), parse_octet(p[2]), parse_octet(p[3])) {
        (Some(a), Some(b), Some(c), Some(d)) => {
            Some(a as u32 * 16777216 + b as u32 * 65536 + c as u32 * 256 + d as u32)
        },
        _ => None,
    }
}

/// One group of an IPv6 address: one to four hexadecimal digits.
pub open spec fn group_of_text(s: Seq<u8>) -> Option<u16> {
    if 1 <= s.len() <= 4 && forall|i: int| 0 <= i < s.len() ==> is_hex(#[trigger] s[i]) {
        Some(hex_number(s) as u16)
    } else {
        None
    }
}

fn hex_value_of(b: u8) -> (r: u16)
    requires
        is_hex(b),
    ensures
        r == hex_value(b),
        r < 16,
{
    if digit(b) {
        (b - '0' as u8) as u16
    } else if 'a' as u8 <= b {
        (b - 'a' as u8 + 10) as u16
    } else {
        (b - 'A' as u8 + 10) as u16
    }
}

fn parse_group(s: &[u8]) -> (r: Option<u16>)
    ensures
        r == group_of_text(s@),
{
    if s.len() == 0 || s.len() > 4 {
        return None;
    }
    let mut v: u32 = 0;
    let mut i: usize = 0;
    while i < s.len()
        invariant
            i <= s@.len() <= 4,
            forall|j: int| 0 <= j < i ==> is_hex(#[trigger] s@[j]),
            v == hex_number(s@.take(i as int)),
            v < pow16(i as nat),
        decreases s@.len() - i,
    {
        if !hex(s[i]) {
            return None;
        }
        proof {
            reveal_with_fuel(pow16, 5);
            assert(s@.take(i + 1).drop_last() =~= s@.take(i as int));
        }
        v = v * 16 + hex_value_of(s[i]) as u32;
        i += 1;
    }
    proof {
        reveal_with_fuel(pow16, 5);
        assert(s@.take(i as int) =~= s@);
    }
    Some(v as u16)
}

/// The two groups that an IPv4 address takes the place of.
pub open spec fn groups_of_v4(v: u32) -> Seq<u16> {
    seq![(v / 65536) as u16, (v % 65536) as u16]
}

/// The groups of the first `n` parts, each of which must be a group.
pub open spec fn plain_groups(parts: Seq<Seq<u8>>, n: int) -> Option<Seq<u16>>
    decreases n,
{
    if n <= 0 {
        Some(Seq::empty())
    } else {
        match (plain_groups(parts, n - 1), group_of_text(parts[n - 1])) {
            (Some(g), Some(x)) => Some(g.push(x)),
            _ => None,
        }
    }
}

/// Groups with colons between them; the last may be an IPv4 address where
/// that is allowed. No text is no groups.
pub open spec fn groups_of_text(s: Seq<u8>, allow_v4: bool) -> Option<Seq<u16>> {
    if s.len() == 0 {
        Some(Seq::empty())
    } else {
        let parts = split(s, ':' as u8);
        let n = parts.len() - 1;
        match plain_groups(parts, n) {
            None => None,
            Some(g) => match group_of_text(parts[n]) {
                Some(x) => Some(g.push(x)),
                None => match v4_of_text(parts[n]) {
                    Some(v) => if allow_v4 {
                        Some(g + groups_of_v4(v))
                    } else {
                        None
                    },
                    None => None,
                },
            },
        }
    }
}

fn parse_groups(s: &[u8], allow_v4: bool) -> (r: Option<Vec<u16>>)
    ensures
        match r {
            Some(g) => groups_of_text(s@, allow_v4) == Some(g@),
            None => groups_of_text(s@, allow_v4) is None,
        },
{
    let mut out: Vec<u16> = Vec::new();
    if s.len() == 0 {
        assert(out@ =~= Seq::<u16>::empty());
        return Some(out);
    }
    let p = split_on(s, ':' as u8);
    let ghost parts = views(p@);
    proof {
        lemma_split_nonempty(s@, ':' as u8);
    }
    let last: usize = p.len() - 1;
    let mut i: usize = 0;
    assert(out@ =~= Seq::<u16>::empty());
    while i < last
        invariant
            i <= last,
            last == p@.len() - 1,
            parts == views(p@),
            parts == split(s@, ':' as u8),
            s@.len() > 0,
            plain_groups(parts, i as int) == Some(out@),
        decreases last - i,
    {
        match parse_group(p[i]) {
            Some(g) => {
                out.push(g);
            },
            None => {
                proof {
                    lemma_plain_groups_none(parts, i + 1, last as int);
                }
                return None;
            },
        }
        i += 1;
    }
    match parse_group(p[last]) {
        Some(g) => {
            out.push(g);
            Some(out)
        },
        None => {
            if !allow_v4 {
                return None;
            }
            match parse_v4(p[last]) {
                None => None,
                Some(v) => {
                    let ghost before = out@;
                    out.push((v / 65536) as u16);
                    out.push((v % 65536) as u16);
                    assert(out@ =~= before + groups_of_v4(v));
                    Some(out)
                },
            }
        },
    }
}

proof fn lemma_split_nonempty(s: Seq<u8>, b: u8)
    ensures
        split(s, b).len() > 0,
{
}

proof fn lemma_plain_groups_none(parts: Seq<Seq<u8>>, n: int, m: int)
    requires
        0 <= n <= m,
        plain_groups(parts, n) is None,
    ensures
        plain_groups(parts, m) is None,
    decreases m,
{
    if n < m {
        lemma_plain_groups_none(parts, n, m - 1);
    }
}

/// `n` groups of zeros.
pub open spec fn zero_groups(n: int) -> Seq<u16> {
    Seq::new(n as nat, |i: int| 0u16)
}

/// The eight groups of an IPv6 address: all of them, or those before and
/// behind a `::` that stands for one or more groups of zeros. An IPv4 address
/// may take the place of the last two.
pub open spec fn v6_groups_of_text(s: Seq<u8>) -> Option<Seq<u16>> {
    match find_seq(s, seq![':' as u8, ':' as u8], 0) {
        None => match groups_of_text(s, true) {
            Some(g) => if g.len() == 8 {
                Some(g)
            } else {
                None
            },
            None => None,
        },
        Some(at) => match (groups_of_text(s.take(at), false), groups_of_text(s.skip(at + 2), true)) {
            (Some(head), Some(tail)) => if head.len() + tail.len() <= 7 {
                Some(head + zero_groups(8 - head.len() - tail.len()) + tail)
            } else {
                None
            },
            _ => None,
        },
    }
}

/// An IPv6 address.
pub open spec fn v6_of_text(s: Seq<u8>) -> Option<u128> {
    match v6_groups_of_text(s) {
        Some(g) => Some(groups_value(g) as u128),
        None => None,
    }
}

/// The position of the first `::`, or the length of `s`.
fn find_double_colon(s: &[u8]) -> (r: usize)
    ensures
        match find_seq(s@, seq![':' as u8, ':' as u8], 0) {
            Some(i) => r == i && i + 2 <= s@.len(),
            None => r == s@.len(),
        },
{
    let ghost needle = seq![':' as u8, ':' as u8];
    let mut i: usize = 0;
    while i < s.len()
        invariant
            i <= s@.len(),
            needle == seq![':' as u8, ':' as u8],
            forall|j: int| 0 <= j < i ==> !occurs_at(s@, needle, j),
        decreases s@.len() - i,
    {
        if s.len() - i >= 2 && s[i] == ':' as u8 && s[i + 1] == ':' as u8 {
            proof {
                assert(s@.subrange(i as int, i + 2) =~= needle);
                lemma_find_seq_is(s@, needle, 0, i as int);
            }
            return i;
        }
        proof {
            if occurs_at(s@, needle, i as int) {
                let w = s@.subrange(i as int, i + 2);
                assert(w[0] == s@[i as int] && w[1] == s@[i + 1]);
            }
        }
        i += 1;
    }
    proof {
        lemma_find_seq(s@, needle, 0);
    }
    i
}

/// Reads an IPv6 address.
pub(crate) fn parse_v6(s: &[u8]) -> (r: Option<u128>)
    ensures
        r == v6_of_text(s@),
{
    let at: usize = find_double_colon(s);
    let mut groups: Vec<u16> = Vec::new();
    if at == s.len() {
        match parse_groups(s, true) {
            None => {
                return None;
            },
            Some(g) => {
                if g.len() != 8 {
                    return None;
                }
                groups = g;
            },
        }
    } else {
        let head = parse_groups(slice_subrange(s, 0, at), false);
        let tail = parse_groups(slice_subrange(s, at + 2, s.len()), true);
        match (head, tail) {
            (Some(h), Some(t)) => {
                if h.len() > 7 || t.len() > 7 || h.len() + t.len() > 7 {
                    return None;
                }
                let ghost hs = h@;
                let ghost ts = t@;
                let zeros: usize = 8 - h.len() - t.len();
                groups = h;
                let mut i: usize = 0;
                assert(groups@ =~= hs + zero_groups(0));
                while i < zeros
                    invariant
                        i <= zeros,
                        groups@ == hs + zero_groups(i as int),
                    decreases zeros - i,
                {
                    groups.push(0);
                    i += 1;
                    assert(groups@ =~= hs + zero_groups(i as int));
                }
                let mut k: usize = 0;
                let ghost front = groups@;
                assert(groups@ =~= front + ts.take(0));
                while k < t.len()
                    invariant
                        k <= t@.len(),
                        t@ == ts,
                        groups@ == front + ts.take(k as int),
                    decreases t@.len() - k,
                {
                    groups.push(t[k]);
                    k += 1;
                    assert(groups@ =~= front + ts.take(k as int));
                }
                assert(groups@ =~= hs + zero_groups(zeros as int) + ts);
            },
            _ => {
                return None;
            },
        }
    }
    assert(v6_groups_of_text(s@) == Some(groups@));
    let mut v: u128 = 0;
    let mut i: usize = 0;
    while i < groups.len()
        invariant
            i <= groups@.len() == 8,
            v == groups_value(groups@.take(i as int)),
        decreases groups@.len() - i,
    {
        proof {
            assert(groups@.take(i + 1).drop_last() =~= groups@.take(i as int));
            lemma_eight_groups(groups@.take(i + 1));
        }
        v = v * 65536 + groups[i] as u128;
        i += 1;
    }
    proof {
        assert(groups@.take(8) =~= groups@);
    }
    Some(v)
}

/// A text without a leading `+`.
pub open spec fn after_plus(s: Seq<u8>) -> Seq<u8> {
    if s.len() > 0 && s[0] == '+' as u8 {
        s.skip(1)
    } else {
        s
    }
}

/// A port: an optional `+`, then digits that write at most 65535.
pub open spec fn node_port_of_text(s: Seq<u8>) -> Option<u16> {
    let digits = after_plus(s);
    if digits.len() > 0 && all_digits(digits) && dec_value(digits) <= 65535 {
        Some(dec_value(digits) as u16)
    } else {
        None
    }
}

/// Reads a port.
pub(crate) fn parse_node_port(s: &[u8]) -> (r: Option<u16>)
    ensures
        r == node_port_of_text(s@),
{
    let digits: &[u8] = if s.len() > 0 && s[0] == '+' as u8 {
        slice_subrange(s, 1, s.len())
    } else {
        s
    };
    assert(digits@ =~= after_plus(s@));
    if digits.len() == 0 {
        return None;
    }
    let mut v: u32 = 0;
    let mut over = false;
    let mut i: usize = 0;
    while i < digits.len()
        invariant
            i <= digits@.len(),
            digits@ == after_plus(s@),
            all_digits(digits@.take(i as int)),
            v <= 65535,
            !over ==> v == dec_value(digits@.take(i as int)),
            over ==> dec_value(digits@.take(i as int)) > 65535,
        decreases digits@.len() - i,
    {
        let b: u8 = digits[i];
        if !digit(b) {
            assert(!is_digit(digits@[i as int]));
            return None;
        }
        proof {
            lemma_dec_value_step(digits@, i as int);
            assert(digits@.take(i + 1) =~= digits@.take(i as int).push(b));
        }
        if !over {
            v = v * 10 + (b - '0' as u8) as u32;
            if v > 65535 {
                over = true;
                v = 0;
            }
        }
        i += 1;
    }
    proof {
        assert(digits@.take(i as int) =~= digits@);
    }
    if over {
        None
    } else {
        Some(v as u16)
    }
}

/// An IPv4 or an IPv6 address.
pub open spec fn addr_of_text(s: Seq<u8>) -> Option<IpAddr> {
    match v4_of_text(s) {
        Some(v) => Some(IpAddr::V4(v)),
        None => match v6_of_text(s) {
            Some(v) => Some(IpAddr::V6(v)),
            None => None,
        },
    }
}

/// Reads an IPv4 or an IPv6 address.
#[must_use]
pub fn parse_addr(s: &[u8]) -> (r: Option<IpAddr>)
    ensures
        r == addr_of_text(s@),
{
    match parse_v4(s) {
        Some(v) => Some(IpAddr::V4(v)),
        None => match parse_v6(s) {
            Some(v) => Some(IpAddr::V6(v)),
            None => None,
        },
    }
}

// ---- writing ----

/// The four octets with dots between them.
pub open spec fn v4_text(v: u32) -> Seq<u8> {
    let o = octets_of(v);
    dec_text(o[0] as nat) + seq!['.' as u8] + dec_text(o[1] as nat) + seq!['.' as u8] + dec_text(
        o[2] as nat,
    ) + seq!['.' as u8] + dec_text(o[3] as nat)
}

/// The number of zero groups from `i` on.
pub open spec fn zeros_at(g: Seq<u16>, i: int) -> int
    decreases g.len() - i,
{
    if i >= g.len() || g[i] != 0 {
        0
    } else {
        1 + zeros_at(g, i + 1)
    }
}

/// Where the longest run of two or more zero groups at or after `i` starts,
/// and how long it is; of several as long, the leftmost.
pub open spec fn longest_zeros(g: Seq<u16>, i: int) -> Option<(int, int)>
    decreases g.len() - i,
{
    if i >= g.len() {
        None
    } else {
        let n = zeros_at(g, i);
        let rest = longest_zeros(g, i + 1);
        if n >= 2 && (rest is None || n >= rest->Some_0.1) {
            Some((i, n))
        } else {
            rest
        }
    }
}

/// The groups `from` to `to` in hexadecimal, with colons between them.
pub open spec fn join_groups(g: Seq<u16>, from: int, to: int) -> Seq<u8>
    decreases to - from,
{
    if from >= to {
        Seq::empty()
    } else if from + 1 == to {
        hex_text(g[from] as nat)
    } else {
        join_groups(g, from, to - 1).push(':' as u8) + hex_text(g[to - 1] as nat)
    }
}

/// An IPv6 address in its canonical form: lowercase, no leading zeros, and
/// the leftmost longest run of two or more zero groups as `::`.
pub open spec fn v6_text(v: u128) -> Seq<u8> {
    let g = groups_of(v as nat, 8);
    match longest_zeros(g, 0) {
        None => join_groups(g, 0, 8),
        Some((at, n)) => join_groups(g, 0, at) + seq![':' as u8, ':' as u8] + join_groups(
            g,
            at + n,
            8,
        ),
    }
}

/// A colon and a port, where there is one.
pub open spec fn port_suffix(port: Option<u16>) -> Seq<u8> {
    match port {
        None => Seq::empty(),
        Some(p) => seq![':' as u8] + dec_text(p as nat),
    }
}

/// An address as a node name, with its port where there is one; an IPv6
/// address stands in brackets.
pub open spec fn node_text(addr: IpAddr, port: Option<u16>) -> Seq<u8> {
    (match addr {
        IpAddr::V4(v) => v4_text(v),
        IpAddr::V6(v) => seq!['[' as u8] + v6_text(v) + seq![']' as u8],
    }) + port_suffix(port)
}

pub proof fn lemma_zeros_at(g: Seq<u16>, i: int)
    requires
        0 <= i <= g.len(),
    ensures
        0 <= zeros_at(g, i) <= g.len() - i,
    decreases g.len() - i,
{
    if i < g.len() {
        lemma_zeros_at(g, i + 1);
    }
}

pub proof fn lemma_longest_zeros(g: Seq<u16>, i: int)
    requires
        0 <= i <= g.len(),
    ensures
        match longest_zeros(g, i) {
            Some((at, n)) => i <= at && 2 <= n && at + n <= g.len() && n == zeros_at(g, at),
            None => true,
        },
    decreases g.len() - i,
{
    if i < g.len() {
        lemma_zeros_at(g, i);
        lemma_longest_zeros(g, i + 1);
    }
}

/// Where the longest run of zero groups starts, and how long it is.
fn longest_zero_run(segs: &[u16; 8]) -> (r: Option<(usize, usize)>)
    ensures
        match r {
            Some((at, n)) => longest_zeros(segs@, 0) == Some((at as int, n as int)) && at + n <= 8,
            None => longest_zeros(segs@, 0) is None,
        },
{
    let mut best: Option<(usize, usize)> = None;
    let mut zeros: usize = 0;
    let mut i: usize = 8;
    while i > 0
        invariant
            i <= 8,
            zeros <= 8 - i,
            zeros == zeros_at(segs@, i as int),
            match best {
                Some((at, n)) => longest_zeros(segs@, i as int) == Some((at as int, n as int))
                    && at + n <= 8,
                None => longest_zeros(segs@, i as int) is None,
            },
        decreases i,
    {
        i -= 1;
        if segs[i] == 0 {
            zeros += 1;
        } else {
            zeros = 0;
        }
        if zeros >= 2 {
            match best {
                Some((_, n)) => {
                    if zeros >= n {
                        best = Some((i, zeros));
                    }
                },
                None => {
                    best = Some((i, zeros));
                },
            }
        }
    }
    best
}

proof fn lemma_group_len(g: u16)
    ensures
        1 <= hex_text(g as nat).len() <= 4,
{
    reveal_with_fuel(pow16, 5);
    lemma_hex_text_len(g as nat, 4);
    law_hex_round_trip(g as nat);
}

proof fn lemma_join_len(g: Seq<u16>, from: int, to: int)
    requires
        0 <= from <= to <= g.len(),
    ensures
        join_groups(g, from, to).len() <= 5 * (to - from),
    decreases to - from,
{
    if from < to {
        lemma_group_len(g[to - 1]);
        if from + 1 < to {
            lemma_join_len(g, from, to - 1);
        }
    }
}

proof fn lemma_join_mono(g: Seq<u16>, from: int, mid: int, to: int)
    requires
        0 <= from <= mid <= to <= g.len(),
    ensures
        join_groups(g, from, mid).len() <= join_groups(g, from, to).len(),
    decreases to - mid,
{
    if mid < to {
        lemma_join_mono(g, from, mid + 1, to);
    }
}

/// Appends the groups `from` to `to`.
fn write_groups(segs: &[u16; 8], from: usize, to: usize, out: &mut BytesMut) -> (r: usize)
    requires
        from <= to <= 8,
        has_room(
            content(*old(out)).len() as int,
            join_groups(segs@, from as int, to as int).len() as int,
        ),
    ensures
        content(*final(out)) == content(*old(out)) + join_groups(segs@, from as int, to as int),
        r == join_groups(segs@, from as int, to as int).len(),
        r <= 40,
{
    let ghost before = content(*out);
    let mut i: usize = from;
    let mut written: usize = 0;
    proof {
        lemma_join_len(segs@, from as int, to as int);
        assert(before + join_groups(segs@, from as int, from as int) =~= before);
    }
    while i < to
        invariant
            from <= i <= to <= 8,
            has_room(
                before.len() as int,
                join_groups(segs@, from as int, to as int).len() as int,
            ),
            content(*out) == before + join_groups(segs@, from as int, i as int),
            written == join_groups(segs@, from as int, i as int).len(),
            join_groups(segs@, from as int, to as int).len() <= 40,
        decreases to - i,
    {
        proof {
            lemma_join_mono(segs@, from as int, i + 1, to as int);
        }
        if i > from {
            put_u8(out, ':' as u8);
            written += 1;
        }
        let n: usize = put_hex(out, segs[i] as u64);
        written += n;
        proof {
            assert(content(*out) =~= before + join_groups(segs@, from as int, i + 1));
        }
        i += 1;
    }
    written
}

fn groups_len(segs: &[u16; 8], from: usize, to: usize) -> (r: usize)
    requires
        from <= to <= 8,
    ensures
        r == join_groups(segs@, from as int, to as int).len(),
        r <= 40,
{
    let mut i: usize = from;
    let mut len: usize = 0;
    proof {
        lemma_join_len(segs@, from as int, to as int);
    }
    while i < to
        invariant
            from <= i <= to <= 8,
            len == join_groups(segs@, from as int, i as int).len(),
            join_groups(segs@, from as int, to as int).len() <= 40,
        decreases to - i,
    {
        proof {
            lemma_join_mono(segs@, from as int, i + 1, to as int);
        }
        if i > from {
            len += 1;
        }
        len += hex_len(segs[i] as u64);
        i += 1;
    }
    len
}

/// Appends an IPv6 address in its canonical form.
fn write_ipv6(v: u128, out: &mut BytesMut) -> (r: usize)
    requires
        has_room(content(*old(out)).len() as int, v6_text(v).len() as int),
    ensures
        content(*final(out)) == content(*old(out)) + v6_text(v),
        r == v6_text(v).len(),
        r <= 82,
{
    let segs = segments(v);
    proof {
        lemma_longest_zeros(segs@, 0);
    }
    match longest_zero_run(&segs) {
        None => write_groups(&segs, 0, 8, out),
        Some((at, n)) => {
            let ghost before = content(*out);
            let a: usize = write_groups(&segs, 0, at, out);
            put_u8(out, ':' as u8);
            put_u8(out, ':' as u8);
            let b: usize = write_groups(&segs, at + n, 8, out);
            proof {
                assert(content(*out) =~= before + v6_text(v));
            }
            a + 2 + b
        },
    }
}

fn ipv6_len(v: u128) -> (r: usize)
    ensures
        r == v6_text(v).len(),
        r <= 82,
{
    let segs = segments(v);
    proof {
        lemma_longest_zeros(segs@, 0);
    }
    match longest_zero_run(&segs) {
        None => groups_len(&segs, 0, 8),
        Some((at, n)) => groups_len(&segs, 0, at) + 2 + groups_len(&segs, at + n, 8),
    }
}

/// Appends an address as a node name and returns the number of bytes.
pub(crate) fn write_node(addr: IpAddr, port: Option<u16>, out: &mut BytesMut) -> (r: usize)
    requires
        has_room(content(*old(out)).len() as int, node_text(addr, port).len() as int),
    ensures
        content(*final(out)) == content(*old(out)) + node_text(addr, port),
        r == node_text(addr, port).len(),
        r <= 200,
{
    let ghost before = content(*out);
    let mut written: usize = 0;
    match addr {
        IpAddr::V4(v) => {
            let dot: u8 = '.' as u8;
            proof {
                let o = octets_of(v);
                reveal_with_fuel(pow10, 4);
                lemma_dec_text_len(o[0] as nat, 3);
                lemma_dec_text_len(o[1] as nat, 3);
                lemma_dec_text_len(o[2] as nat, 3);
                lemma_dec_text_len(o[3] as nat, 3);
            }
            written = written + put_decimal(out, (v / 16777216) as u64);
            put_u8(out, dot);
            written = written + put_decimal(out, (v / 65536 % 256) as u64);
            put_u8(out, dot);
            written = written + put_decimal(out, (v / 256 % 256) as u64);
            put_u8(out, dot);
            written = written + put_decimal(out, (v % 256) as u64);
            written = written + 3;
            proof {
                assert(content(*out) =~= before + v4_text(v));
            }
        },
        IpAddr::V6(v) => {
            put_u8(out, '[' as u8);
            written = write_ipv6(v, out) + 2;
            put_u8(out, ']' as u8);
            proof {
                assert(content(*out) =~= before + (seq!['[' as u8] + v6_text(v) + seq![
                    ']' as u8,
                ]));
            }
        },
    }
    match port {
        None => {
            proof {
                assert(content(*out) =~= before + node_text(addr, port));
            }
        },
        Some(p) => {
            proof {
                reveal_with_fuel(pow10, 6);
                lemma_dec_text_len(p as nat, 5);
            }
            put_u8(out, ':' as u8);
            written = written + 1 + put_decimal(out, p as u64);
            proof {
                assert(content(*out) =~= before + node_text(addr, port));
            }
        },
    }
    written
}

/// The number of bytes that [`write_node`] writes.
pub(crate) fn node_len(addr: IpAddr, port: Option<u16>) -> (r: usize)
    ensures
        r == node_text(addr, port).len(),
        r <= 200,
{
    let len: usize = match addr {
        IpAddr::V4(v) => {
            decimal_len((v / 16777216) as u64) + decimal_len((v / 65536 % 256) as u64)
                + decimal_len((v / 256 % 256) as u64) + decimal_len((v % 256) as u64) + 3
        },
        IpAddr::V6(v) => ipv6_len(v) + 2,
    };
    match port {
        None => len,
        Some(p) => len + 1 + decimal_len(p as u64),
    }
}

} // verus!
