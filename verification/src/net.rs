//! IP addresses as numbers.
use vstd::arithmetic::power2::{lemma2_to64, lemma_pow2_adds, lemma_pow2_pos, pow2};
use vstd::bits::{lemma_u128_shr_is_div, lemma_u32_shr_is_div};
use vstd::prelude::*;

verus! {

/// An IPv4 or IPv6 address, as the number its bits write.
#[derive(Copy, Clone, Debug, PartialEq, Eq, Hash, Structural)]
pub enum IpAddr {
    V4(u32),
    V6(u128),
}

/// An address and a port.
#[derive(Copy, Clone, Debug, PartialEq, Eq, Hash, Structural)]
pub struct SocketAddr {
    pub ip: IpAddr,
    pub port: u16,
}

/// The lowest `n` groups of sixteen bits of `v`, most significant first.
pub open spec fn groups_of(v: nat, n: nat) -> Seq<u16>
    decreases n,
{
    if n == 0 {
        Seq::empty()
    } else {
        groups_of(v / 65536, (n - 1) as nat).push((v % 65536) as u16)
    }
}

/// The number that groups of sixteen bits write, most significant first.
pub open spec fn groups_value(g: Seq<u16>) -> nat
    decreases g.len(),
{
    if g.len() == 0 {
        0
    } else {
        groups_value(g.drop_last()) * 65536 + g.last() as nat
    }
}

/// The groups of the number that groups write are those groups.
pub proof fn law_groups_round_trip(g: Seq<u16>)
    ensures
        groups_of(groups_value(g), g.len()) == g,
    decreases g.len(),
{
    if g.len() > 0 {
        law_groups_round_trip(g.drop_last());
        let v = groups_value(g.drop_last());
        assert((v * 65536 + g.last() as nat) / 65536 == v);
        assert(groups_of(groups_value(g), g.len()) =~= g);
    } else {
        assert(groups_of(groups_value(g), g.len()) =~= g);
    }
}

/// `n` groups write a number below `65536^n`.
pub proof fn lemma_groups_value_bound(g: Seq<u16>)
    ensures
        groups_value(g) < pow2((16 * g.len()) as nat),
    decreases g.len(),
{
    lemma2_to64();
    if g.len() > 0 {
        lemma_groups_value_bound(g.drop_last());
        lemma_pow2_adds((16 * (g.len() - 1)) as nat, 16);
        let p = pow2((16 * (g.len() - 1)) as nat);
        let v = groups_value(g.drop_last());
        assert(v * 65536 + 65536 <= p * 65536) by (nonlinear_arith)
            requires
                v < p,
        ;
    }
}

/// Eight groups write a number that fits 128 bits.
pub proof fn lemma_eight_groups(g: Seq<u16>)
    requires
        g.len() <= 8,
    ensures
        groups_value(g) <= u128::MAX,
{
    lemma_groups_value_bound(g);
    lemma2_to64();
    lemma_pow2_adds(64, 64);
    if g.len() < 8 {
        let k = (16 * g.len()) as nat;
        lemma_pow2_adds(k, (128 - k) as nat);
        lemma_pow2_pos((128 - k) as nat);
        let a = pow2(k);
        let b = pow2((128 - k) as nat);
        assert(a <= a * b) by (nonlinear_arith)
            requires
                b > 0,
        ;
    }
}

/// The four octets of an IPv4 address, most significant first.
pub open spec fn octets_of(v: u32) -> Seq<u8> {
    seq![
        (v / 16777216) as u8,
        (v / 65536 % 256) as u8,
        (v / 256 % 256) as u8,
        (v % 256) as u8,
    ]
}

/// The number that four octets write.
pub open spec fn octets_value(a: int, b: int, c: int, d: int) -> int {
    a * 16777216 + b * 65536 + c * 256 + d
}

/// The octets of the number that octets write are those octets.
pub proof fn law_octets_round_trip(a: u8, b: u8, c: u8, d: u8)
    ensures
        0 <= octets_value(a as int, b as int, c as int, d as int) <= u32::MAX,
        octets_of(octets_value(a as int, b as int, c as int, d as int) as u32) == seq![a, b, c, d],
{
    let v = octets_value(a as int, b as int, c as int, d as int);
    assert(v / 256 == a * 65536 + b * 256 + c);
    assert(v / 65536 == a * 256 + b);
    assert(octets_of(v as u32) =~= seq![a, b, c, d]);
}

impl IpAddr {
    /// The IPv4 address `a.b.c.d`.
    #[must_use]
    pub fn v4(a: u8, b: u8, c: u8, d: u8) -> (r: IpAddr)
        ensures
            r == IpAddr::V4(octets_value(a as int, b as int, c as int, d as int) as u32),
            0 <= octets_value(a as int, b as int, c as int, d as int) <= u32::MAX,
    {
        IpAddr::V4(a as u32 * 16777216 + b as u32 * 65536 + c as u32 * 256 + d as u32)
    }

    /// The IPv6 address of these eight groups.
    #[must_use]
    pub fn v6(groups: [u16; 8]) -> (r: IpAddr)
        ensures
            r == IpAddr::V6(groups_value(groups@) as u128),
            groups_value(groups@) <= u128::MAX,
    {
        let mut v: u128 = 0;
        let mut i: usize = 0;
        while i < 8
            invariant
                i <= 8,
                v == groups_value(groups@.take(i as int)),
            decreases 8 - i,
        {
            proof {
                assert(groups@.take(i + 1).drop_last() =~= groups@.take(i as int));
                lemma_eight_groups(groups@.take(i + 1));
            }
            v = v * 65536 + groups[i] as u128;
            i += 1;
        }
        proof {
            assert(groups@.take(8) =~= groups@);
            lemma_eight_groups(groups@);
        }
        IpAddr::V6(v)
    }
}

/// The eight groups of an IPv6 address.
#[must_use]
pub fn segments(v: u128) -> (r: [u16; 8])
    ensures
        r@ == groups_of(v as nat, 8),
{
    let mut out: [u16; 8] = [0;8];
    let mut rest: u128 = v;
    let mut i: usize = 8;
    proof {
        assert(groups_of(v as nat, 8) =~= groups_of(rest as nat, 8) + out@.skip(8));
    }
    while i > 0
        invariant
            i <= 8,
            out@.len() == 8,
            groups_of(v as nat, 8) == groups_of(rest as nat, i as nat) + out@.skip(i as int),
        decreases i,
    {
        let ghost before = out@;
        i -= 1;
        out[i] = (rest % 65536) as u16;
        proof {
            assert(out@.skip(i as int) =~= seq![(rest % 65536) as u16] + before.skip(i + 1));
            assert(groups_of(rest as nat / 65536, i as nat) + out@.skip(i as int) =~= groups_of(
                rest as nat,
                (i + 1) as nat,
            ) + before.skip(i + 1));
        }
        rest = rest / 65536;
    }
    proof {
        assert(out@.skip(0) =~= out@);
        assert(groups_of(rest as nat, 0) + out@ =~= out@);
    }
    out
}

/// Whether two numbers of `width` bits share their first `len` bits.
pub open spec fn same_prefix(a: nat, b: nat, width: nat, len: nat) -> bool {
    a / pow2((width - len) as nat) == b / pow2((width - len) as nat)
}

/// An empty prefix is shared.
pub proof fn lemma_empty_prefix(a: nat, b: nat, width: nat)
    requires
        a < pow2(width),
        b < pow2(width),
    ensures
        same_prefix(a, b, width, 0),
{
    let p = pow2(width);
    assert(a / p == 0) by (nonlinear_arith)
        requires
            a < p,
    ;
    assert(b / p == 0) by (nonlinear_arith)
        requires
            b < p,
    ;
}

/// Whether two IPv4 addresses share their first `len` bits.
pub(crate) fn same_prefix4(a: u32, b: u32, len: u8) -> (r: bool)
    requires
        len <= 32,
    ensures
        r == same_prefix(a as nat, b as nat, 32, len as nat),
{
    if len == 0 {
        proof {
            lemma2_to64();
            lemma_empty_prefix(a as nat, b as nat, 32);
        }
        return true;
    }
    let shift: u32 = 32 - len as u32;
    proof {
        lemma_u32_shr_is_div(a, shift);
        lemma_u32_shr_is_div(b, shift);
    }
    (a >> shift) == (b >> shift)
}

/// Whether two IPv6 addresses share their first `len` bits.
pub(crate) fn same_prefix6(a: u128, b: u128, len: u8) -> (r: bool)
    requires
        len <= 128,
    ensures
        r == same_prefix(a as nat, b as nat, 128, len as nat),
{
    if len == 0 {
        proof {
            lemma2_to64();
            lemma_pow2_adds(64, 64);
            lemma_empty_prefix(a as nat, b as nat, 128);
        }
        return true;
    }
    let shift: u128 = 128 - len as u128;
    proof {
        lemma_u128_shr_is_div(a, shift);
        lemma_u128_shr_is_div(b, shift);
    }
    (a >> shift) == (b >> shift)
}

} // verus!
