//! What is written of an address reads back as that address.
use crate::addr_text::{
    group_of_text, groups_of_text, join_groups, lemma_longest_zeros, longest_zeros,
    node_port_of_text, node_text, octet_of_text, plain_groups, v4_of_text, v4_text,
    v6_groups_of_text, v6_of_text, v6_text, zero_groups, zeros_at,
};
use crate::forwarded::{node_name, obfuscated, NodeName};
use crate::net::{groups_of, groups_value, octets_of, octets_value, IpAddr};
use crate::num::{
    dec_text, hex_text, law_decimal_round_trip, law_hex_round_trip, lemma_dec_text_len,
    lemma_hex_text_len, pow10, pow16,
};
use crate::text::{
    ascii, find, find_seq, is_digit, is_hex, lemma_ascii, lemma_find, lemma_find_is,
    lemma_find_seq, lemma_find_seq_is, lower_all, occurs_at, split, split_from,
};
use vstd::prelude::*;

verus! {

// ---- splitting what was joined ----

/// Whether a separator does not occur.
pub open spec fn free_of(s: Seq<u8>, b: u8) -> bool {
    forall|i: int| 0 <= i < s.len() ==> #[trigger] s[i] != b
}

/// One more part behind a separator is one more part.
proof fn lemma_split_snoc(x: Seq<u8>, sep: u8, y: Seq<u8>, i: int)
    requires
        free_of(y, sep),
        0 <= i <= x.len(),
    ensures
        split_from(x + seq![sep] + y, sep, i) == split_from(x, sep, i).push(y),
    decreases x.len() - i,
{
    let s = x + seq![sep] + y;
    let n = x.len() as int;
    lemma_find(x, sep, i);
    let at = find(x, sep, i);
    assert forall|j: int| 0 <= j < n implies s[j] == x[j] by {}
    assert(s[n] == sep);
    lemma_find_is(s, sep, i, at);
    if at < n {
        lemma_split_snoc(x, sep, y, at + 1);
        assert(s.subrange(i, at) =~= x.subrange(i, at));
        assert(split_from(s, sep, i) =~= split_from(x, sep, i).push(y));
    } else {
        assert forall|j: int| n + 1 <= j < s.len() implies s[j] != sep by {
            assert(s[j] == y[j - n - 1]);
        }
        lemma_find_is(s, sep, n + 1, s.len() as int);
        assert(s.skip(n + 1) =~= y);
        assert(s.subrange(i, n) =~= x.skip(i));
        assert(split_from(s, sep, n + 1) =~= seq![y]);
        assert(split_from(s, sep, i) =~= split_from(x, sep, i).push(y));
    }
}

/// A text without a separator is one part.
proof fn lemma_split_single(x: Seq<u8>, sep: u8)
    requires
        free_of(x, sep),
    ensures
        split(x, sep) == seq![x],
{
    lemma_find_is(x, sep, 0, x.len() as int);
    assert(x.skip(0) =~= x);
    assert(split(x, sep) =~= seq![x]);
}

// ---- IPv4 ----

proof fn lemma_leading_digit(n: nat)
    requires
        n > 0,
    ensures
        dec_text(n)[0] != '0' as u8,
        dec_text(n).len() > 0,
    decreases n,
{
    if n >= 10 {
        lemma_leading_digit(n / 10);
        assert(dec_text(n)[0] == dec_text(n / 10)[0]);
    }
}

proof fn lemma_octet(o: u8)
    ensures
        octet_of_text(dec_text(o as nat)) == Some(o),
        free_of(dec_text(o as nat), '.' as u8),
        free_of(dec_text(o as nat), ':' as u8),
        dec_text(o as nat).len() > 0,
{
    law_decimal_round_trip(o as nat);
    reveal_with_fuel(pow10, 4);
    lemma_dec_text_len(o as nat, 3);
    if o > 0 {
        lemma_leading_digit(o as nat);
    }
    let t = dec_text(o as nat);
    assert forall|i: int| 0 <= i < t.len() implies #[trigger] t[i] != '.' as u8 && t[i]
        != ':' as u8 by {
        assert(is_digit(t[i]));
    }
}

/// The parts of a written IPv4 address are its octets.
proof fn lemma_v4_parts(v: u32)
    ensures
        split(v4_text(v), '.' as u8) == seq![
            dec_text(octets_of(v)[0] as nat),
            dec_text(octets_of(v)[1] as nat),
            dec_text(octets_of(v)[2] as nat),
            dec_text(octets_of(v)[3] as nat),
        ],
{
    let dot = '.' as u8;
    let o = octets_of(v);
    let a = dec_text(o[0] as nat);
    let b = dec_text(o[1] as nat);
    let c = dec_text(o[2] as nat);
    let d = dec_text(o[3] as nat);
    lemma_octet(o[0]);
    lemma_octet(o[1]);
    lemma_octet(o[2]);
    lemma_octet(o[3]);
    lemma_split_single(a, dot);
    lemma_split_snoc(a, dot, b, 0);
    let ab = a + seq![dot] + b;
    lemma_split_snoc(ab, dot, c, 0);
    let abc = ab + seq![dot] + c;
    lemma_split_snoc(abc, dot, d, 0);
    assert(v4_text(v) =~= abc + seq![dot] + d);
    assert(split(v4_text(v), dot) =~= seq![a, b, c, d]);
}

/// A written IPv4 address reads back as that address.
pub proof fn law_v4_text_reads_back(v: u32)
    ensures
        v4_of_text(v4_text(v)) == Some(v),
{
    let o = octets_of(v);
    lemma_v4_parts(v);
    lemma_octet(o[0]);
    lemma_octet(o[1]);
    lemma_octet(o[2]);
    lemma_octet(o[3]);
    assert(octets_value(o[0] as int, o[1] as int, o[2] as int, o[3] as int) == v);
}

// ---- IPv6 ----

proof fn lemma_group(g: u16)
    ensures
        group_of_text(hex_text(g as nat)) == Some(g),
        free_of(hex_text(g as nat), ':' as u8),
        hex_text(g as nat).len() > 0,
{
    law_hex_round_trip(g as nat);
    reveal_with_fuel(pow16, 5);
    lemma_hex_text_len(g as nat, 4);
    let t = hex_text(g as nat);
    assert forall|i: int| 0 <= i < t.len() implies #[trigger] t[i] != ':' as u8 by {
        assert(is_hex(t[i]));
    }
}

/// The parts of joined groups are the groups.
proof fn lemma_join_split(g: Seq<u16>, from: int, to: int)
    requires
        0 <= from < to <= g.len(),
    ensures
        split(join_groups(g, from, to), ':' as u8) == Seq::new(
            (to - from) as nat,
            |i: int| hex_text(g[from + i] as nat),
        ),
    decreases to - from,
{
    let colon = ':' as u8;
    lemma_group(g[to - 1]);
    let parts = Seq::new((to - from) as nat, |i: int| hex_text(g[from + i] as nat));
    if from + 1 == to {
        lemma_split_single(hex_text(g[from] as nat), colon);
        assert(parts =~= seq![hex_text(g[from] as nat)]);
    } else {
        lemma_join_split(g, from, to - 1);
        let x = join_groups(g, from, to - 1);
        let y = hex_text(g[to - 1] as nat);
        lemma_split_snoc(x, colon, y, 0);
        assert(join_groups(g, from, to) =~= x + seq![colon] + y);
        let before = Seq::new((to - 1 - from) as nat, |i: int| hex_text(g[from + i] as nat));
        assert(parts =~= before.push(y));
    }
}

/// Whether every colon stands alone, and none at either end.
spec fn lone_colons(s: Seq<u8>) -> bool {
    forall|j: int|
        0 <= j < s.len() && #[trigger] s[j] == ':' as u8 ==> 0 < j && j + 1 < s.len() && s[j + 1]
            != ':' as u8
}

proof fn lemma_join_colons(g: Seq<u16>, from: int, to: int)
    requires
        0 <= from <= to <= g.len(),
    ensures
        lone_colons(join_groups(g, from, to)),
        from < to ==> join_groups(g, from, to).len() > 0,
    decreases to - from,
{
    if from < to {
        lemma_group(g[to - 1]);
        if from + 1 < to {
            lemma_join_colons(g, from, to - 1);
            let x = join_groups(g, from, to - 1);
            let y = hex_text(g[to - 1] as nat);
            let s = join_groups(g, from, to);
            assert forall|j: int| 0 <= j < s.len() && #[trigger] s[j] == ':' as u8 implies 0 < j && j
                + 1 < s.len() && s[j + 1] != ':' as u8 by {
                if j < x.len() {
                    assert(x[j] == ':' as u8);
                    assert(s[j + 1] == x[j + 1]);
                } else if j > x.len() {
                    assert(s[j] == y[j - x.len() - 1]);
                } else {
                    assert(s[j + 1] == y[0]);
                }
            }
        }
    }
}

proof fn lemma_plain_groups(g: Seq<u16>, from: int, n: int, parts: Seq<Seq<u8>>)
    requires
        0 <= n <= parts.len(),
        0 <= from,
        from + n <= g.len(),
        forall|i: int| 0 <= i < n ==> #[trigger] parts[i] == hex_text(g[from + i] as nat),
    ensures
        plain_groups(parts, n) == Some(g.subrange(from, from + n)),
    decreases n,
{
    if n > 0 {
        lemma_plain_groups(g, from, n - 1, parts);
        lemma_group(g[from + n - 1]);
        assert(parts[n - 1] == hex_text(g[from + (n - 1)] as nat));
        assert(g.subrange(from, from + n - 1).push(g[from + n - 1]) =~= g.subrange(
            from,
            from + n,
        ));
    } else {
        assert(g.subrange(from, from) =~= Seq::<u16>::empty());
    }
}

/// Joined groups read back as those groups.
proof fn lemma_join_reads_back(g: Seq<u16>, from: int, to: int, allow_v4: bool)
    requires
        0 <= from <= to <= g.len(),
    ensures
        groups_of_text(join_groups(g, from, to), allow_v4) == Some(g.subrange(from, to)),
{
    if from == to {
        assert(g.subrange(from, to) =~= Seq::<u16>::empty());
    } else {
        lemma_join_colons(g, from, to);
        lemma_join_split(g, from, to);
        let parts = split(join_groups(g, from, to), ':' as u8);
        let n = parts.len() - 1;
        lemma_plain_groups(g, from, n, parts);
        lemma_group(g[to - 1]);
        assert(parts[n] == hex_text(g[from + n] as nat));
        assert(g.subrange(from, to - 1).push(g[to - 1]) =~= g.subrange(from, to));
    }
}

proof fn lemma_zero_run(g: Seq<u16>, at: int, n: int)
    requires
        0 <= at,
        0 <= n <= zeros_at(g, at),
        at + n <= g.len(),
    ensures
        g.subrange(at, at + n) == zero_groups(n),
    decreases n,
{
    if n > 0 {
        lemma_zero_run(g, at + 1, n - 1);
        assert(g.subrange(at, at + n) =~= seq![g[at]] + g.subrange(at + 1, at + n));
        assert(zero_groups(n) =~= seq![0u16] + zero_groups(n - 1));
    } else {
        assert(g.subrange(at, at + n) =~= zero_groups(n));
    }
}

/// `65536` to the power `n`.
spec fn pow65536(n: nat) -> nat
    decreases n,
{
    if n == 0 {
        1
    } else {
        65536 * pow65536((n - 1) as nat)
    }
}

proof fn lemma_groups_value_of(v: nat, n: nat)
    requires
        v < pow65536(n),
    ensures
        groups_value(groups_of(v, n)) == v,
        groups_of(v, n).len() == n,
    decreases n,
{
    if n > 0 {
        lemma_groups_value_of(v / 65536, (n - 1) as nat);
        let g = groups_of(v, n);
        assert(g.drop_last() =~= groups_of(v / 65536, (n - 1) as nat));
    }
}

/// A written IPv6 address reads back as that address.
pub proof fn law_v6_text_reads_back(v: u128)
    ensures
        v6_of_text(v6_text(v)) == Some(v),
{
    let g = groups_of(v as nat, 8);
    let double = seq![':' as u8, ':' as u8];
    let text = v6_text(v);
    reveal_with_fuel(pow65536, 9);
    assert((v as nat) < pow65536(8));
    lemma_groups_value_of(v as nat, 8);
    lemma_longest_zeros(g, 0);
    lemma_find_seq(text, double, 0);
    match longest_zeros(g, 0) {
        None => {
            lemma_join_colons(g, 0, 8);
            if let Some(i) = find_seq(text, double, 0) {
                let w = text.subrange(i, i + 2);
                assert(w[0] == text[i] && w[1] == text[i + 1]);
            }
            lemma_join_reads_back(g, 0, 8, true);
            assert(g.subrange(0, 8) =~= g);
        },
        Some((at, n)) => {
            let x = join_groups(g, 0, at);
            let y = join_groups(g, at + n, 8);
            let p = x.len() as int;
            lemma_join_colons(g, 0, at);
            lemma_join_reads_back(g, 0, at, false);
            lemma_join_reads_back(g, at + n, 8, true);
            assert(text.subrange(p, p + 2) =~= double);
            assert forall|j: int| 0 <= j < p implies !occurs_at(text, double, j) by {
                if occurs_at(text, double, j) {
                    let w = text.subrange(j, j + 2);
                    assert(w[0] == text[j] && w[1] == text[j + 1]);
                    assert(x[j] == ':' as u8);
                    assert(text[j + 1] == x[j + 1]);
                }
            }
            lemma_find_seq_is(text, double, 0, p);
            assert(text.take(p) =~= x);
            assert(text.skip(p + 2) =~= y);
            lemma_zero_run(g, at, n);
            assert(g.subrange(0, at) + zero_groups(n) + g.subrange(at + n, 8) =~= g) by {
                assert(g.subrange(at, at + n) == zero_groups(n));
                assert(g.subrange(0, at) + g.subrange(at, at + n) + g.subrange(at + n, 8) =~= g);
            }
            assert(v6_groups_of_text(text) == Some(g));
        },
    }
}

// ---- node names ----

proof fn lemma_port_reads_back(p: u16)
    ensures
        node_port_of_text(dec_text(p as nat)) == Some(p),
        free_of(dec_text(p as nat), ':' as u8),
{
    law_decimal_round_trip(p as nat);
    let t = dec_text(p as nat);
    assert(is_digit(t[0]));
    assert forall|i: int| 0 <= i < t.len() implies #[trigger] t[i] != ':' as u8 by {
        assert(is_digit(t[i]));
    }
}

/// The bytes of a written IPv4 address.
pub proof fn lemma_v4_bytes(v: u32)
    ensures
        v4_text(v).len() > 0,
        is_digit(v4_text(v)[0]),
        free_of(v4_text(v), ':' as u8),
{
    let o = octets_of(v);
    lemma_octet(o[0]);
    lemma_octet(o[1]);
    lemma_octet(o[2]);
    lemma_octet(o[3]);
    law_decimal_round_trip(o[0] as nat);
    assert(v4_text(v)[0] == dec_text(o[0] as nat)[0]);
    assert(is_digit(dec_text(o[0] as nat)[0]));
}

/// The bytes of a written IPv6 address: none of them is a bracket.
proof fn lemma_v6_bytes(v: u128)
    ensures
        free_of(v6_text(v), ']' as u8),
{
    let g = groups_of(v as nat, 8);
    reveal_with_fuel(pow65536, 9);
    assert((v as nat) < pow65536(8));
    lemma_groups_value_of(v as nat, 8);
    lemma_longest_zeros(g, 0);
    match longest_zeros(g, 0) {
        None => lemma_join_bytes(g, 0, 8),
        Some((at, n)) => {
            lemma_join_bytes(g, 0, at);
            lemma_join_bytes(g, at + n, 8);
            let t = v6_text(v);
            let x = join_groups(g, 0, at);
            let y = join_groups(g, at + n, 8);
            assert forall|j: int| 0 <= j < t.len() implies #[trigger] t[j] != ']' as u8 by {
                if j < x.len() {
                    assert(t[j] == x[j]);
                } else if j >= x.len() + 2 {
                    assert(t[j] == y[j - x.len() - 2]);
                }
            }
        },
    }
}

proof fn lemma_join_bytes(g: Seq<u16>, from: int, to: int)
    requires
        0 <= from <= to <= g.len(),
    ensures
        free_of(join_groups(g, from, to), ']' as u8),
    decreases to - from,
{
    if from < to {
        let y = hex_text(g[to - 1] as nat);
        law_hex_round_trip(g[to - 1] as nat);
        assert forall|i: int| 0 <= i < y.len() implies #[trigger] y[i] != ']' as u8 by {
            assert(is_hex(y[i]));
        }
        if from + 1 < to {
            lemma_join_bytes(g, from, to - 1);
            let x = join_groups(g, from, to - 1);
            let s = join_groups(g, from, to);
            assert forall|j: int| 0 <= j < s.len() implies #[trigger] s[j] != ']' as u8 by {
                if j < x.len() {
                    assert(s[j] == x[j]);
                } else if j > x.len() {
                    assert(s[j] == y[j - x.len() - 1]);
                }
            }
        }
    }
}

/// A node name that starts like an address is neither `unknown` nor an
/// obfuscated identifier nor quoted.
proof fn lemma_starts_like_address(t: Seq<u8>)
    requires
        t.len() > 0,
        is_digit(t[0]) || t[0] == '[' as u8,
    ensures
        lower_all(t) != lower_all(ascii("unknown"@)),
        !obfuscated(t),
        t[0] != '_' as u8,
        t[0] != '"' as u8,
{
    reveal_strlit("unknown");
    lemma_ascii("unknown"@);
    assert(lower_all(ascii("unknown"@))[0] == 'u' as u8);
    assert(lower_all(t)[0] == t[0]);
}

proof fn lemma_v4_node(v: u32, port: Option<u16>)
    requires
        port != Some(0u16),
    ensures
        node_name(node_text(IpAddr::V4(v), port)) == (NodeName::Addr { addr: IpAddr::V4(v), port }),
{
    let t = node_text(IpAddr::V4(v), port);
    let colon = ':' as u8;
    let x = v4_text(v);
    law_v4_text_reads_back(v);
    lemma_v4_bytes(v);
    assert(t[0] == x[0]);
    lemma_starts_like_address(t);
    match port {
        None => {
            assert(t =~= x);
            lemma_find_is(t, colon, 0, t.len() as int);
        },
        Some(p) => {
            lemma_port_reads_back(p);
            let d = dec_text(p as nat);
            let n = x.len() as int;
            assert(t[n] == colon);
            assert forall|j: int| 0 <= j < n implies t[j] != colon by {
                assert(t[j] == x[j]);
            }
            lemma_find_is(t, colon, 0, n);
            assert forall|j: int| n + 1 <= j < t.len() implies t[j] != colon by {
                assert(t[j] == d[j - n - 1]);
            }
            lemma_find_is(t, colon, n + 1, t.len() as int);
            assert(t.take(n) =~= x);
            assert(t.skip(n + 1) =~= d);
        },
    }
}

proof fn lemma_v6_node(v: u128, port: Option<u16>)
    requires
        port != Some(0u16),
    ensures
        node_name(node_text(IpAddr::V6(v), port)) == (NodeName::Addr { addr: IpAddr::V6(v), port }),
{
    let t = node_text(IpAddr::V6(v), port);
    let x = v6_text(v);
    let n = x.len() as int;
    law_v6_text_reads_back(v);
    lemma_v6_bytes(v);
    assert(t[0] == '[' as u8);
    lemma_starts_like_address(t);
    assert(t[n + 1] == ']' as u8);
    assert forall|j: int| 0 <= j < n + 1 implies t[j] != ']' as u8 by {
        if j > 0 {
            assert(t[j] == x[j - 1]);
        }
    }
    lemma_find_is(t, ']' as u8, 0, n + 1);
    assert(t.subrange(1, n + 1) =~= x);
    match port {
        None => {
            assert(t.len() == n + 2);
        },
        Some(p) => {
            lemma_port_reads_back(p);
            let d = dec_text(p as nat);
            assert(t[n + 2] == ':' as u8);
            assert(t.skip(n + 3) =~= d);
        },
    }
}

/// A written node name reads back as its address and its port. A port of
/// zero is left out: it is read as none.
pub proof fn law_node_text_reads_back(addr: IpAddr, port: Option<u16>)
    requires
        port != Some(0u16),
    ensures
        node_name(node_text(addr, port)) == (NodeName::Addr { addr, port }),
{
    match addr {
        IpAddr::V4(v) => lemma_v4_node(v, port),
        IpAddr::V6(v) => lemma_v6_node(v, port),
    }
}

} // verus!
