//! Who the client is, and how that is told to the upstream.
//!
//! The forwarding chain is walked from its end, the hop nearest to this
//! proxy, for as long as the hop before is trusted. An entry that is no
//! address ends the walk.
use crate::addr_text::{node_len, node_text, write_node};
use crate::authority::{authority_text, Authority, AuthorityView};
use crate::cidr::{prefix_contains, IpCidr};
use crate::ext::{content, has_room};
use crate::forwarded::{ForwardedChain, ForwardedElement, NodeName};
use crate::net::{IpAddr, SocketAddr};
use crate::scalar::Scheme;
use crate::text::{ascii, lemma_ascii};
use bytes::BytesMut;
use vstd::prelude::*;

verus! {

/// Whose claims about the client are believed.
#[derive(Debug)]
pub enum TrustPolicy {
    /// Nobody's.
    Nobody,
    /// Those of so many hops before this proxy.
    HopCount(u32),
    /// Those of hops with an address in one of these prefixes.
    TrustedCidrs(Vec<IpCidr>),
}

/// Where the client's address was taken from.
#[derive(Copy, Clone, Debug, PartialEq, Eq, Structural)]
pub enum IdentitySource {
    /// The connection.
    Socket,
    /// A PROXY protocol header.
    ProxyProtocol,
    /// The forwarding chain.
    ForwardedChain,
}

/// The one client identity of a request.
#[derive(Copy, Clone, Debug, PartialEq, Eq, Structural)]
pub struct PeerIdentity {
    /// The client's address.
    pub client: IpAddr,
    /// The client's port, where it is known.
    pub client_port: Option<u16>,
    /// Where the address was taken from.
    pub source: IdentitySource,
    /// The protocol that the chain claims for the client's hop.
    pub forwarded_proto: Option<Scheme>,
    /// How many entries of the chain were believed.
    pub trusted_hops: u32,
    /// Whether the nearest hop is trusted.
    pub peer_trusted: bool,
}

/// Whether one of the first `n` prefixes holds an address.
pub open spec fn any_contains(list: Seq<IpCidr>, n: int, addr: IpAddr) -> bool
    decreases n,
{
    n > 0 && (any_contains(list, n - 1, addr) || prefix_contains(
        list[n - 1]@.0,
        list[n - 1]@.1,
        addr,
    ))
}

/// Whether the claim of a hop at this address, so many hops away, is believed.
pub open spec fn trusts(policy: TrustPolicy, addr: IpAddr, hops: u32) -> bool {
    match policy {
        TrustPolicy::Nobody => false,
        TrustPolicy::HopCount(n) => hops < n,
        TrustPolicy::TrustedCidrs(list) => any_contains(list@, list@.len() as int, addr),
    }
}

fn is_trusted(policy: &TrustPolicy, addr: IpAddr, hops: u32) -> (r: bool)
    ensures
        r == trusts(*policy, addr, hops),
{
    match policy {
        TrustPolicy::Nobody => false,
        TrustPolicy::HopCount(n) => hops < *n,
        TrustPolicy::TrustedCidrs(list) => {
            let mut i: usize = 0;
            let mut found = false;
            while i < list.len()
                invariant
                    i <= list@.len(),
                    found == any_contains(list@, i as int, addr),
                decreases list@.len() - i,
            {
                if list[i].contains(addr) {
                    found = true;
                }
                i += 1;
            }
            found
        },
    }
}

/// The walk over the first `n` elements of a chain, from the last of them.
pub open spec fn walk(
    policy: TrustPolicy,
    elements: Seq<ForwardedElement>,
    n: int,
    id: PeerIdentity,
) -> PeerIdentity
    decreases n,
{
    if n <= 0 || !trusts(policy, id.client, id.trusted_hops) || id.trusted_hops == u32::MAX {
        id
    } else {
        match elements[n - 1].node {
            NodeName::Addr { addr, port } => walk(
                policy,
                elements,
                n - 1,
                PeerIdentity {
                    client: addr,
                    client_port: port,
                    source: IdentitySource::ForwardedChain,
                    forwarded_proto: elements[n - 1].proto,
                    trusted_hops: (id.trusted_hops + 1) as u32,
                    peer_trusted: id.peer_trusted,
                },
            ),
            _ => id,
        }
    }
}

/// The peer itself: what a PROXY protocol header declared, or the other end
/// of the connection.
pub open spec fn nearest(
    socket_peer: SocketAddr,
    proxy_proto: Option<SocketAddr>,
    policy: TrustPolicy,
) -> PeerIdentity {
    let (peer, source) = match proxy_proto {
        Some(p) => (p, IdentitySource::ProxyProtocol),
        None => (socket_peer, IdentitySource::Socket),
    };
    PeerIdentity {
        client: peer.ip,
        client_port: Some(peer.port),
        source,
        forwarded_proto: None,
        trusted_hops: 0,
        peer_trusted: trusts(policy, peer.ip, 0),
    }
}

/// Resolves the client's identity.
#[must_use]
pub fn resolve_identity(
    socket_peer: SocketAddr,
    proxy_proto: Option<SocketAddr>,
    chain: &ForwardedChain,
    policy: &TrustPolicy,
) -> (r: PeerIdentity)
    ensures
        r == walk(
            *policy,
            chain@.elements,
            chain@.elements.len() as int,
            nearest(socket_peer, proxy_proto, *policy),
        ),
{
    let (peer, source) = match proxy_proto {
        Some(p) => (p, IdentitySource::ProxyProtocol),
        None => (socket_peer, IdentitySource::Socket),
    };
    let mut id = PeerIdentity {
        client: peer.ip,
        client_port: Some(peer.port),
        source,
        forwarded_proto: None,
        trusted_hops: 0,
        peer_trusted: is_trusted(policy, peer.ip, 0),
    };
    let elements = chain.elements();
    let mut n: usize = elements.len();
    while n > 0 && is_trusted(policy, id.client, id.trusted_hops) && id.trusted_hops < u32::MAX
        invariant
            n <= elements@.len(),
            elements@ == chain@.elements,
            walk(
                *policy,
                chain@.elements,
                chain@.elements.len() as int,
                nearest(socket_peer, proxy_proto, *policy),
            ) == walk(*policy, elements@, n as int, id),
        decreases n,
    {
        let e: ForwardedElement = elements[n - 1];
        match e.node {
            NodeName::Addr { addr, port } => {
                id = PeerIdentity {
                    client: addr,
                    client_port: port,
                    source: IdentitySource::ForwardedChain,
                    forwarded_proto: e.proto,
                    trusted_hops: id.trusted_hops + 1,
                    peer_trusted: id.peer_trusted,
                };
                n -= 1;
            },
            _ => {
                return id;
            },
        }
    }
    id
}

/// Where nobody is trusted, the chain changes nothing.
pub proof fn law_untrusted_chain_is_ignored(
    elements: Seq<ForwardedElement>,
    socket_peer: SocketAddr,
    proxy_proto: Option<SocketAddr>,
)
    ensures
        walk(
            TrustPolicy::Nobody,
            elements,
            elements.len() as int,
            nearest(socket_peer, proxy_proto, TrustPolicy::Nobody),
        ) == nearest(socket_peer, proxy_proto, TrustPolicy::Nobody),
{
}

/// Which fields tell the upstream about the client.
#[derive(Copy, Clone, Debug, PartialEq, Eq, Structural)]
pub struct ForwardEmit {
    /// Whether to write `Forwarded`.
    pub emit_forwarded: bool,
    /// Whether to write the `X-Forwarded-` fields.
    pub emit_x_forwarded: bool,
}

/// One element of a `Forwarded` field that names the client, this proxy, the
/// scheme and the host.
pub open spec fn forwarded_text(
    peer: PeerIdentity,
    local: SocketAddr,
    scheme: Scheme,
    authority: AuthorityView,
) -> Seq<u8> {
    ascii("for=\""@) + node_text(peer.client, peer.client_port) + ascii("\";by=\""@) + node_text(
        local.ip,
        Some(local.port),
    ) + ascii("\";proto="@) + scheme.bytes_spec() + ascii(";host=\""@) + authority_text(authority)
        + ascii("\""@)
}

/// Appends one element of a `Forwarded` field.
pub(crate) fn write_forwarded_element(
    peer: &PeerIdentity,
    local: SocketAddr,
    scheme: Scheme,
    authority: &Authority,
    out: &mut BytesMut,
)
    requires
        has_room(
            content(*old(out)).len() as int,
            forwarded_text(*peer, local, scheme, authority@).len() as int,
        ),
    ensures
        content(*final(out)) == content(*old(out)) + forwarded_text(
            *peer,
            local,
            scheme,
            authority@,
        ),
{
    let ghost before = content(*out);
    out.extend_from_slice("for=\"".as_bytes());
    let _a: usize = write_node(peer.client, peer.client_port, out);
    out.extend_from_slice("\";by=\"".as_bytes());
    let _b: usize = write_node(local.ip, Some(local.port), out);
    out.extend_from_slice("\";proto=".as_bytes());
    out.extend_from_slice(scheme.as_bytes());
    out.extend_from_slice(";host=\"".as_bytes());
    let _c: usize = authority.write_to(out);
    out.extend_from_slice("\"".as_bytes());
    assert(content(*out) =~= before + forwarded_text(*peer, local, scheme, authority@));
}

/// The number of bytes that [`write_forwarded_element`] writes.
pub(crate) fn forwarded_element_len(
    peer: &PeerIdentity,
    local: SocketAddr,
    scheme: Scheme,
    authority: &Authority,
) -> (r: usize)
    ensures
        r == forwarded_text(*peer, local, scheme, authority@).len(),
        r <= 70000,
{
    proof {
        reveal_strlit("for=\"");
        reveal_strlit("\";by=\"");
        reveal_strlit("\";proto=");
        reveal_strlit(";host=\"");
        reveal_strlit("\"");
        reveal_strlit("http");
        reveal_strlit("https");
        lemma_ascii("for=\""@);
        lemma_ascii("\";by=\""@);
        lemma_ascii("\";proto="@);
        lemma_ascii(";host=\""@);
        lemma_ascii("\""@);
        lemma_ascii("http"@);
        lemma_ascii("https"@);
    }
    "for=\"".as_bytes().len() + node_len(peer.client, peer.client_port) + "\";by=\"".as_bytes().len()
        + node_len(local.ip, Some(local.port)) + "\";proto=".as_bytes().len()
        + scheme.as_bytes().len() + ";host=\"".as_bytes().len() + authority.written_len()
        + "\"".as_bytes().len()
}

} // verus!
