//! Whose claims about the client are believed.
use crate::cidr::{prefix_contains, IpCidr};
use crate::forwarded::{ForwardedElement, NodeName};
use crate::net::{same_prefix, IpAddr, SocketAddr};
use crate::peer::{any_contains, nearest, trusts, walk, IdentitySource, PeerIdentity, TrustPolicy};
use vstd::arithmetic::div_mod::lemma_div_denominator;
use vstd::arithmetic::power2::{lemma_pow2_adds, lemma_pow2_pos, lemma_pow2_unfold, pow2};
use vstd::prelude::*;

verus! {

// ---- prefixes ----

/// The bit of a number at position `i`, counted from the lowest.
pub open spec fn bit(v: nat, i: nat) -> nat {
    v / pow2(i) % 2
}

proof fn lemma_bit(v: nat, i: nat)
    ensures
        v / pow2(i) == 2 * (v / pow2(i + 1)) + bit(v, i),
{
    lemma_pow2_pos(i);
    lemma_pow2_unfold(i + 1);
    lemma_div_denominator(v as int, pow2(i) as int, 2);
    assert(pow2(i + 1) == pow2(i) * 2) by (nonlinear_arith)
        requires
            pow2(i + 1) == 2 * pow2(i),
    ;
}

proof fn lemma_same_above(a: nat, b: nat, i: nat, k: nat)
    requires
        k <= i,
        a / pow2(k) == b / pow2(k),
    ensures
        a / pow2(i) == b / pow2(i),
{
    let d = (i - k) as nat;
    lemma_pow2_pos(k);
    lemma_pow2_pos(d);
    lemma_pow2_adds(k, d);
    lemma_div_denominator(a as int, pow2(k) as int, pow2(d) as int);
    lemma_div_denominator(b as int, pow2(k) as int, pow2(d) as int);
}

proof fn lemma_bits_same(a: nat, b: nat, width: nat, k: nat)
    requires
        k <= width,
        a < pow2(width),
        b < pow2(width),
        forall|i: nat| k <= i < width ==> #[trigger] bit(a, i) == bit(b, i),
    ensures
        a / pow2(k) == b / pow2(k),
    decreases width - k,
{
    if k == width {
        let p = pow2(width);
        assert(a / p == 0) by (nonlinear_arith)
            requires
                a < p,
        ;
        assert(b / p == 0) by (nonlinear_arith)
            requires
                b < p,
        ;
    } else {
        lemma_bits_same(a, b, width, k + 1);
        lemma_bit(a, k);
        lemma_bit(b, k);
        assert(bit(a, k) == bit(b, k));
    }
}

proof fn lemma_prefix_bits(a: nat, b: nat, width: nat, len: nat)
    requires
        len <= width,
        a < pow2(width),
        b < pow2(width),
    ensures
        same_prefix(a, b, width, len) <==> forall|i: nat|
            width - len <= i < width ==> #[trigger] bit(a, i) == bit(b, i),
{
    let k = (width - len) as nat;
    if same_prefix(a, b, width, len) {
        assert forall|i: nat| width - len <= i < width implies #[trigger] bit(a, i) == bit(
            b,
            i,
        ) by {
            lemma_same_above(a, b, i, k);
        }
    }
    if forall|i: nat| width - len <= i < width ==> #[trigger] bit(a, i) == bit(b, i) {
        lemma_bits_same(a, b, width, k);
    }
}

/// An address is in a prefix exactly if it is of the same family and its
/// leading bits, as many as the prefix is long, are the same.
pub proof fn law_prefix_is_leading_bits(addr: IpAddr, len: u8, other: IpAddr)
    requires
        addr is V4 ==> len <= 32,
        addr is V6 ==> len <= 128,
    ensures
        prefix_contains(addr, len, other) <==> match (addr, other) {
            (IpAddr::V4(a), IpAddr::V4(b)) => forall|i: nat|
                32 - len <= i < 32 ==> #[trigger] bit(a as nat, i) == bit(b as nat, i),
            (IpAddr::V6(a), IpAddr::V6(b)) => forall|i: nat|
                128 - len <= i < 128 ==> #[trigger] bit(a as nat, i) == bit(b as nat, i),
            _ => false,
        },
{
    assert(pow2(32) == 0x1_0000_0000) by {
        vstd::arithmetic::power2::lemma2_to64();
    }
    assert(pow2(128) == 0x1_0000_0000_0000_0000_0000_0000_0000_0000) by {
        vstd::arithmetic::power2::lemma2_to64();
        lemma_pow2_adds(64, 64);
    }
    match (addr, other) {
        (IpAddr::V4(a), IpAddr::V4(b)) => lemma_prefix_bits(a as nat, b as nat, 32, len as nat),
        (IpAddr::V6(a), IpAddr::V6(b)) => lemma_prefix_bits(a as nat, b as nat, 128, len as nat),
        _ => {},
    }
}

// ---- trust ----

/// Whether a hop that is so many hops away is believed: under no policy, up to
/// so many hops, or with an address in one of the prefixes.
pub open spec fn believed(policy: TrustPolicy, addr: IpAddr, hops: int) -> bool {
    match policy {
        TrustPolicy::Nobody => false,
        TrustPolicy::HopCount(n) => hops < n,
        TrustPolicy::TrustedCidrs(list) => exists|i: int|
            0 <= i < list@.len() && holds(#[trigger] list@[i], addr),
    }
}

/// Whether an address is in a prefix.
pub open spec fn holds(c: IpCidr, addr: IpAddr) -> bool {
    prefix_contains(c@.0, c@.1, addr)
}

/// A hop is believed as its policy says.
pub proof fn law_trust(policy: TrustPolicy, addr: IpAddr, hops: u32)
    ensures
        trusts(policy, addr, hops) <==> believed(policy, addr, hops as int),
{
    if let TrustPolicy::TrustedCidrs(list) = policy {
        lemma_any(list@, list@.len() as int, addr);
    }
}

proof fn lemma_any(list: Seq<IpCidr>, n: int, addr: IpAddr)
    requires
        0 <= n <= list.len(),
    ensures
        any_contains(list, n, addr) <==> exists|i: int|
            0 <= i < n && holds(#[trigger] list[i], addr),
    decreases n,
{
    if n > 0 {
        lemma_any(list, n - 1, addr);
        if holds(list[n - 1], addr) {
            assert(holds(list[n - 1], addr));
        }
        if any_contains(list, n - 1, addr) {
            let i = choose|i: int| 0 <= i < n - 1 && holds(#[trigger] list[i], addr);
            assert(holds(list[i], addr));
        }
        if exists|i: int| 0 <= i < n && holds(#[trigger] list[i], addr) {
            let i = choose|i: int| 0 <= i < n && holds(#[trigger] list[i], addr);
            if i < n - 1 {
                assert(holds(list[i], addr));
            }
        }
    }
}

/// The peer is what a PROXY protocol header declares, where there is one, and
/// otherwise the other end of the connection.
pub proof fn law_nearest_hop(socket_peer: SocketAddr, declared: SocketAddr, policy: TrustPolicy)
    ensures
        nearest(socket_peer, None, policy).client == socket_peer.ip,
        nearest(socket_peer, None, policy).client_port == Some(socket_peer.port),
        nearest(socket_peer, None, policy).source == IdentitySource::Socket,
        nearest(socket_peer, Some(declared), policy).client == declared.ip,
        nearest(socket_peer, Some(declared), policy).client_port == Some(declared.port),
        nearest(socket_peer, Some(declared), policy).source == IdentitySource::ProxyProtocol,
        nearest(socket_peer, None, policy).trusted_hops == 0,
        nearest(socket_peer, Some(declared), policy).trusted_hops == 0,
        nearest(socket_peer, None, policy).forwarded_proto is None,
        nearest(socket_peer, Some(declared), policy).forwarded_proto is None,
        nearest(socket_peer, None, policy).peer_trusted <==> believed(policy, socket_peer.ip, 0),
        nearest(socket_peer, Some(declared), policy).peer_trusted <==> believed(
            policy,
            declared.ip,
            0,
        ),
{
    law_trust(policy, socket_peer.ip, 0);
    law_trust(policy, declared.ip, 0);
}

/// The address after so many believed entries: that of the peer, then that of
/// each entry from the last on.
pub open spec fn hop_addr(elements: Seq<ForwardedElement>, peer: IpAddr, hops: int) -> IpAddr {
    if hops <= 0 {
        peer
    } else {
        elements[elements.len() - hops].node->addr
    }
}

/// The chain is believed from its end on, one entry per believed hop. Where it
/// stops, the chain is at its front, or the entry before names no address, or
/// the hop is not believed. What is known of the client is then what the last
/// believed entry says, and without one what is known of the peer.
pub proof fn law_chain_is_walked(
    policy: TrustPolicy,
    elements: Seq<ForwardedElement>,
    peer: PeerIdentity,
)
    requires
        peer.trusted_hops == 0,
        elements.len() < u32::MAX,
    ensures
        ({
            let n = elements.len() as int;
            let id = walk(policy, elements, n, peer);
            let t = id.trusted_hops as int;
            &&& 0 <= t <= n
            &&& id.peer_trusted == peer.peer_trusted
            &&& forall|j: int|
                0 <= j < t ==> (#[trigger] elements[n - 1 - j]).node is Addr && believed(
                    policy,
                    hop_addr(elements, peer.client, j),
                    j,
                )
            &&& t == n || !(elements[n - 1 - t].node is Addr) || !believed(
                policy,
                hop_addr(elements, peer.client, t),
                t,
            )
            &&& t == 0 ==> id == peer
            &&& t > 0 ==> {
                &&& elements[n - t].node == (NodeName::Addr {
                    addr: id.client,
                    port: id.client_port,
                })
                &&& id.forwarded_proto == elements[n - t].proto
                &&& id.source == IdentitySource::ForwardedChain
            }
        }),
{
    lemma_walk(policy, elements, elements.len() as int, peer, peer);
}

proof fn lemma_walk(
    policy: TrustPolicy,
    elements: Seq<ForwardedElement>,
    n: int,
    peer: PeerIdentity,
    id: PeerIdentity,
)
    requires
        peer.trusted_hops == 0,
        elements.len() < u32::MAX,
        0 <= n <= elements.len(),
        id.trusted_hops == elements.len() - n,
        id.client == hop_addr(elements, peer.client, elements.len() - n),
        id.peer_trusted == peer.peer_trusted,
        id.trusted_hops == 0 ==> id == peer,
        id.trusted_hops > 0 ==> elements[n].node == (NodeName::Addr {
            addr: id.client,
            port: id.client_port,
        }) && id.forwarded_proto == elements[n].proto && id.source
            == IdentitySource::ForwardedChain,
    ensures
        ({
            let m = elements.len() as int;
            let r = walk(policy, elements, n, id);
            let t = r.trusted_hops as int;
            &&& id.trusted_hops <= t <= m
            &&& r.peer_trusted == peer.peer_trusted
            &&& forall|j: int|
                id.trusted_hops <= j < t ==> (#[trigger] elements[m - 1 - j]).node is Addr
                    && believed(policy, hop_addr(elements, peer.client, j), j)
            &&& t == m || !(elements[m - 1 - t].node is Addr) || !believed(
                policy,
                hop_addr(elements, peer.client, t),
                t,
            )
            &&& t == 0 ==> r == peer
            &&& t > 0 ==> {
                &&& elements[m - t].node == (NodeName::Addr {
                    addr: r.client,
                    port: r.client_port,
                })
                &&& r.forwarded_proto == elements[m - t].proto
                &&& r.source == IdentitySource::ForwardedChain
            }
        }),
    decreases n,
{
    law_trust(policy, id.client, id.trusted_hops);
    if n > 0 && trusts(policy, id.client, id.trusted_hops) {
        if let NodeName::Addr { addr, port } = elements[n - 1].node {
            let next = PeerIdentity {
                client: addr,
                client_port: port,
                source: IdentitySource::ForwardedChain,
                forwarded_proto: elements[n - 1].proto,
                trusted_hops: (id.trusted_hops + 1) as u32,
                peer_trusted: id.peer_trusted,
            };
            lemma_walk(policy, elements, n - 1, peer, next);
            let m = elements.len() as int;
            let r = walk(policy, elements, n, id);
            assert forall|j: int|
                id.trusted_hops <= j < r.trusted_hops implies (#[trigger] elements[m - 1
                - j]).node is Addr && believed(policy, hop_addr(elements, peer.client, j), j) by {
                if j == id.trusted_hops {
                    assert(m - 1 - j == n - 1);
                }
            }
        }
    }
}

/// With a hop count of `k` and a chain of addresses, the client is the entry
/// `k` before the end, or the first one of a shorter chain.
pub proof fn law_hop_count(k: u32, elements: Seq<ForwardedElement>, peer: PeerIdentity)
    requires
        peer.trusted_hops == 0,
        elements.len() < u32::MAX,
        forall|i: int| 0 <= i < elements.len() ==> (#[trigger] elements[i]).node is Addr,
    ensures
        ({
            let n = elements.len() as int;
            let id = walk(TrustPolicy::HopCount(k), elements, n, peer);
            let t = if k < n {
                k as int
            } else {
                n
            };
            &&& id.trusted_hops == t
            &&& t == 0 ==> id == peer
            &&& t > 0 ==> id.client == elements[n - t].node->addr && id.client_port
                == elements[n - t].node->Addr_port
        }),
{
    let n = elements.len() as int;
    let p = TrustPolicy::HopCount(k);
    law_chain_is_walked(p, elements, peer);
    let t = walk(p, elements, n, peer).trusted_hops as int;
    if t < n {
        assert(elements[n - 1 - t].node is Addr);
    }
    if t > 0 {
        assert(elements[n - 1 - (t - 1)].node is Addr);
        assert(believed(p, hop_addr(elements, peer.client, t - 1), t - 1));
    }
}

} // verus!
