//! How addresses are read and written, beyond the one text each is written as.
use crate::addr_text::{
    group_of_text, groups_of_text, join_groups, lemma_longest_zeros, longest_zeros, plain_groups,
    v6_of_text, v6_text, zero_groups, zeros_at,
};
use crate::laws::chunks::{all_digits16, lemma_number16, number16};
use crate::laws::paths::law_split_at_a_separator;
use crate::net::{groups_of, groups_value};
use crate::num::hex_text;
use crate::text::{
    find_seq, is_hex, joined, lemma_find_is, lemma_find_seq, occurs_at, split,
};
use vstd::prelude::*;

verus! {

// ---- reading ----

/// A group: one to four digits of base 16, in either case.
pub open spec fn group_text(s: Seq<u8>) -> bool {
    1 <= s.len() <= 4 && all_digits16(s)
}

/// Whether every part is a group.
pub open spec fn group_texts(parts: Seq<Seq<u8>>) -> bool {
    forall|i: int| 0 <= i < parts.len() ==> group_text(#[trigger] parts[i])
}

/// The numbers that groups write.
pub open spec fn group_numbers(parts: Seq<Seq<u8>>) -> Seq<u16> {
    Seq::new(parts.len(), |i: int| number16(parts[i]) as u16)
}

proof fn lemma_group(s: Seq<u8>)
    requires
        group_text(s),
    ensures
        group_of_text(s) == Some(number16(s) as u16),
        forall|i: int| 0 <= i < s.len() ==> #[trigger] s[i] != 58,
{
    lemma_number16(s);
    assert forall|i: int| 0 <= i < s.len() implies #[trigger] s[i] != 58 by {
        assert(is_hex(s[i]));
    }
}

proof fn lemma_joined_split(parts: Seq<Seq<u8>>)
    requires
        parts.len() > 0,
        group_texts(parts),
    ensures
        split(joined(parts, 58u8), 58u8) == parts,
    decreases parts.len(),
{
    let first = parts[0];
    lemma_group(first);
    lemma_find_is(first, 58u8, 0, first.len() as int);
    assert(first.skip(0) =~= first);
    assert(split(first, 58u8) =~= seq![first]);
    if parts.len() == 1 {
        assert(parts =~= seq![first]);
    } else {
        let more = parts.skip(1);
        assert forall|i: int| 0 <= i < more.len() implies group_text(#[trigger] more[i]) by {
            assert(group_text(parts[i + 1]));
        }
        lemma_joined_split(more);
        law_split_at_a_separator(first, joined(more, 58u8), 58u8);
        assert(seq![first] + more =~= parts);
    }
}

proof fn lemma_plain(parts: Seq<Seq<u8>>, n: int)
    requires
        0 <= n <= parts.len(),
        group_texts(parts),
    ensures
        plain_groups(parts, n) == Some(group_numbers(parts).take(n)),
    decreases n,
{
    if n > 0 {
        lemma_plain(parts, n - 1);
        lemma_group(parts[n - 1]);
        assert(group_numbers(parts).take(n - 1).push(number16(parts[n - 1]) as u16)
            =~= group_numbers(parts).take(n));
    } else {
        assert(group_numbers(parts).take(0) =~= Seq::<u16>::empty());
    }
}

/// Groups with colons between them are the numbers they write.
proof fn lemma_groups(parts: Seq<Seq<u8>>, allow_v4: bool)
    requires
        group_texts(parts),
    ensures
        groups_of_text(joined(parts, 58u8), allow_v4) == Some(group_numbers(parts)),
{
    if parts.len() == 0 {
        assert(group_numbers(parts) =~= Seq::<u16>::empty());
    } else {
        let s = joined(parts, 58u8);
        let n = parts.len() - 1;
        lemma_joined_split(parts);
        lemma_plain(parts, n);
        lemma_group(parts[n]);
        assert(group_text(parts[0]));
        assert(s.len() > 0);
        assert(group_numbers(parts).take(n).push(number16(parts[n]) as u16) =~= group_numbers(
            parts,
        ));
    }
}

/// No two colons stand side by side, and none at the ends.
proof fn lemma_single_colons(parts: Seq<Seq<u8>>)
    requires
        group_texts(parts),
    ensures
        ({
            let s = joined(parts, 58u8);
            &&& parts.len() > 0 ==> s.len() > 0 && s[0] != 58 && s.last() != 58
            &&& forall|i: int| 0 <= i < s.len() - 1 ==> !(#[trigger] s[i] == 58 && s[i + 1] == 58)
        }),
    decreases parts.len(),
{
    let s = joined(parts, 58u8);
    if parts.len() > 0 {
        let first = parts[0];
        let n = first.len() as int;
        assert(group_text(first));
        lemma_group(first);
        if parts.len() > 1 {
            let more = parts.skip(1);
            assert forall|i: int| 0 <= i < more.len() implies group_text(#[trigger] more[i]) by {
                assert(group_text(parts[i + 1]));
            }
            lemma_single_colons(more);
            let t = joined(more, 58u8);
            assert(s =~= first + seq![58u8] + t);
            assert(s[0] == first[0]);
            assert(s.last() == t.last());
            assert forall|i: int| 0 <= i < s.len() - 1 implies !(#[trigger] s[i] == 58 && s[i + 1]
                == 58) by {
                if i < n {
                    assert(s[i] == first[i]);
                } else if i == n {
                    assert(s[i + 1] == t[0]);
                } else {
                    assert(s[i] == t[i - n - 1]);
                    assert(s[i + 1] == t[i - n]);
                }
            }
        }
    }
}

/// Eight groups with colons between them are the address of these groups.
pub proof fn law_eight_groups(parts: Seq<Seq<u8>>)
    requires
        group_texts(parts),
    ensures
        parts.len() == 8 ==> v6_of_text(joined(parts, 58u8)) == Some(
            groups_value(group_numbers(parts)) as u128,
        ),
        parts.len() != 8 ==> v6_of_text(joined(parts, 58u8)) is None,
{
    let s = joined(parts, 58u8);
    let double = seq![':' as u8, ':' as u8];
    lemma_single_colons(parts);
    lemma_groups(parts, true);
    lemma_find_seq(s, double, 0);
    if let Some(at) = find_seq(s, double, 0) {
        assert(s.subrange(at, at + 2)[0] == 58);
        assert(s.subrange(at, at + 2)[1] == 58);
        assert(s[at] == 58 && s[at + 1] == 58);
    }
}

/// `::` stands for as many groups of zeros as are missing to eight, and for at
/// least one.
pub proof fn law_double_colon(head: Seq<Seq<u8>>, tail: Seq<Seq<u8>>)
    requires
        group_texts(head),
        group_texts(tail),
    ensures
        ({
            let s = joined(head, 58u8) + seq![58u8, 58u8] + joined(tail, 58u8);
            let k = 8 - head.len() - tail.len();
            v6_of_text(s) == if k >= 1 {
                Some(
                    groups_value(
                        group_numbers(head) + Seq::new(k as nat, |i: int| 0u16) + group_numbers(
                            tail,
                        ),
                    ) as u128,
                )
            } else {
                None
            }
        }),
{
    let a = joined(head, 58u8);
    let b = joined(tail, 58u8);
    let s = a + seq![58u8, 58u8] + b;
    let n = a.len() as int;
    let double = seq![':' as u8, ':' as u8];
    lemma_single_colons(head);
    lemma_groups(head, false);
    lemma_groups(tail, true);
    assert(s.subrange(n, n + 2) =~= double);
    assert(occurs_at(s, double, n));
    assert forall|j: int| 0 <= j < n implies !occurs_at(s, double, j) by {
        if occurs_at(s, double, j) {
            assert(s.subrange(j, j + 2)[0] == 58 && s.subrange(j, j + 2)[1] == 58);
            assert(s[j] == 58 && s[j + 1] == 58);
            assert(s[j] == a[j]);
            if j + 1 < n {
                assert(s[j + 1] == a[j + 1]);
            } else {
                assert(a[j] == a.last());
            }
        }
    }
    crate::text::lemma_find_seq_is(s, double, 0, n);
    assert(s.take(n) =~= a);
    assert(s.skip(n + 2) =~= b);
    let k = 8 - head.len() - tail.len();
    assert(zero_groups(k) =~= Seq::new(k as nat, |i: int| 0u16));
}

// ---- writing ----

/// Whether `n` groups from `at` on are zero.
pub open spec fn zero_run(g: Seq<u16>, at: int, n: int) -> bool {
    0 <= at && at + n <= g.len() && forall|i: int| at <= i < at + n ==> #[trigger] g[i] == 0
}

proof fn lemma_run(g: Seq<u16>, at: int)
    requires
        0 <= at <= g.len(),
    ensures
        0 <= zeros_at(g, at),
        zero_run(g, at, zeros_at(g, at)),
        at + zeros_at(g, at) < g.len() ==> g[at + zeros_at(g, at)] != 0,
    decreases g.len() - at,
{
    if at < g.len() && g[at] == 0 {
        lemma_run(g, at + 1);
    }
}

/// What `::` is written for: the longest run of at least two groups of zeros,
/// and of several as long the first. Without such a run it is not written.
pub proof fn law_longest_run(g: Seq<u16>)
    ensures
        match longest_zeros(g, 0) {
            Some((at, n)) => {
                &&& n >= 2
                &&& zero_run(g, at, n)
                &&& forall|i: int, m: int| #[trigger]
                    zero_run(g, i, m) && m >= 2 ==> m <= n && (m == n ==> at <= i)
            },
            None => forall|i: int, m: int| #[trigger] zero_run(g, i, m) ==> m < 2,
        },
{
    lemma_longest(g, 0);
}

proof fn lemma_longest(g: Seq<u16>, from: int)
    requires
        0 <= from <= g.len(),
    ensures
        match longest_zeros(g, from) {
            Some((at, n)) => {
                &&& n >= 2
                &&& at >= from
                &&& zero_run(g, at, n)
                &&& forall|i: int, m: int| #[trigger]
                    zero_run(g, i, m) && m >= 2 && i >= from ==> m <= n && (m == n ==> at <= i)
            },
            None => forall|i: int, m: int| #[trigger] zero_run(g, i, m) && i >= from ==> m < 2,
        },
    decreases g.len() - from,
{
    if from < g.len() {
        lemma_run(g, from);
        lemma_longest(g, from + 1);
        let z = zeros_at(g, from);
        assert forall|m: int| #[trigger] zero_run(g, from, m) && m >= 2 implies m <= z by {
            if m > z {
                assert(g[from + z] == 0);
            }
        }
    }
}

/// The groups from `from` to `to` as they are written.
pub open spec fn written_groups(g: Seq<u16>, from: int, to: int) -> Seq<Seq<u8>> {
    Seq::new((to - from) as nat, |i: int| hex_text(g[from + i] as nat))
}

proof fn lemma_join(g: Seq<u16>, from: int, to: int)
    requires
        0 <= from <= to <= g.len(),
    ensures
        join_groups(g, from, to) == joined(written_groups(g, from, to), 58u8),
    decreases to - from,
{
    let w = written_groups(g, from, to);
    if from + 1 < to {
        let d = written_groups(g, from, to - 1);
        let x = hex_text(g[to - 1] as nat);
        lemma_join(g, from, to - 1);
        lemma_joined_push(d, x);
        assert(d.push(x) =~= w);
        assert(join_groups(g, from, to) =~= joined(w, 58u8));
    }
}

proof fn lemma_joined_push(d: Seq<Seq<u8>>, x: Seq<u8>)
    requires
        d.len() > 0,
    ensures
        joined(d.push(x), 58u8) == joined(d, 58u8) + seq![58u8] + x,
    decreases d.len(),
{
    let p = d.push(x);
    if d.len() == 1 {
        assert(p.skip(1) =~= seq![x]);
        assert(joined(seq![x], 58u8) == x);
        assert(joined(d, 58u8) == d[0]);
    } else {
        assert(p.skip(1) =~= d.skip(1).push(x));
        lemma_joined_push(d.skip(1), x);
    }
    assert(joined(p, 58u8) =~= joined(d, 58u8) + seq![58u8] + x);
}

/// How an IPv6 address is written: its eight groups with colons between them,
/// or, where two or more groups of zeros stand side by side, `::` for the
/// longest such run, the first of several as long.
pub proof fn law_v6_text(v: u128)
    ensures
        ({
            let g = groups_of(v as nat, 8);
            ||| {
                &&& v6_text(v) == joined(written_groups(g, 0, 8), 58u8)
                &&& forall|i: int, m: int| #[trigger] zero_run(g, i, m) ==> m < 2
            }
            ||| exists|at: int, n: int| #[trigger]
                zero_run(g, at, n) && n >= 2 && v6_text(v) == joined(
                    written_groups(g, 0, at),
                    58u8,
                ) + seq![58u8, 58u8] + joined(written_groups(g, at + n, 8), 58u8) && forall|
                    i: int,
                    m: int,
                | #[trigger]
                    zero_run(g, i, m) && m >= 2 ==> m <= n && (m == n ==> at <= i)
        }),
{
    let g = groups_of(v as nat, 8);
    lemma_len(v as nat, 8);
    law_longest_run(g);
    lemma_longest_zeros(g, 0);
    match longest_zeros(g, 0) {
        None => lemma_join(g, 0, 8),
        Some((at, n)) => {
            lemma_join(g, 0, at);
            lemma_join(g, at + n, 8);
            assert(zero_run(g, at, n));
        },
    }
}

proof fn lemma_len(v: nat, n: nat)
    ensures
        groups_of(v, n).len() == n,
    decreases n,
{
    if n > 0 {
        lemma_len(v / 65536, (n - 1) as nat);
    }
}

/// A number in base 16 is written with the digits `0` to `9` and `a` to `f`,
/// and without zeros before it; it reads as that number.
pub proof fn law_hex_text(n: nat)
    ensures
        hex_text(n).len() > 0,
        forall|i: int|
            0 <= i < hex_text(n).len() ==> 48 <= #[trigger] hex_text(n)[i] <= 57 || 97 <= hex_text(
                n,
            )[i] <= 102,
        n > 0 ==> hex_text(n)[0] != 48,
        n == 0 ==> hex_text(n) == seq![48u8],
        number16(hex_text(n)) == n,
    decreases n,
{
    let t = hex_text(n);
    if n < 16 {
        assert(t.drop_last() =~= Seq::<u8>::empty());
        assert(number16(t.drop_last()) == 0);
    } else {
        law_hex_text(n / 16);
        let h = hex_text(n / 16);
        assert(t.drop_last() =~= h);
        assert forall|i: int| 0 <= i < t.len() implies 48 <= #[trigger] t[i] <= 57 || 97 <= t[i]
            <= 102 by {
            if i < h.len() {
                assert(t[i] == h[i]);
            }
        }
        assert(t[0] == h[0]);
    }
}

} // verus!
