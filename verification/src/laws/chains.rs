//! What the lines of a forwarding chain come to.
use crate::addr_laws::law_v4_text_reads_back;
use crate::addr_text::{node_port_of_text, octet_of_text, v4_of_text, v4_text};
use crate::field::trim;
use crate::forwarded::{
    chain_of, charge_lines, charged, classify_node, element_of, lines_from, no_chain, node_name,
    obfuscated, obfuscated_byte, proto_of, span_step, spans_from, top_split, unquoted, with_proto,
    ChainView, ForwardedElement, NodeName,
};
use crate::laws::bodies::{all_digits10, lemma_number10, number10};
use crate::laws::classes::law_split_parts_join;
use crate::limits::Limits;
use crate::net::{octets_of, IpAddr};
use crate::num::{all_digits, dec_text, dec_value};
use crate::text::{
    ascii, find, is_digit, joined, lemma_ascii, lemma_find, lemma_find_is, lower_all, split,
};
use vstd::prelude::*;

verus! {

// ---- the elements ----

/// What one element claims: in `Forwarded` what its parameters say, in
/// `X-Forwarded-For` a node. `None` where it is refused.
pub open spec fn hop_of(span: Seq<u8>, xff: bool) -> Option<ForwardedElement> {
    if xff {
        if trim(span).len() == 0 {
            None
        } else {
            Some(ForwardedElement { node: node_name(trim(span)), proto: None, from_xff: true })
        }
    } else {
        match element_of(span) {
            Ok(e) => Some(ForwardedElement { node: e.node, proto: e.proto, from_xff: false }),
            Err(_) => None,
        }
    }
}

/// The host that one element claims.
pub open spec fn host_claim(span: Seq<u8>, xff: bool) -> Option<Seq<u8>> {
    if xff {
        None
    } else {
        match element_of(span) {
            Ok(e) => match e.host {
                Some(h) => Some(unquoted(h)),
                None => None,
            },
            Err(_) => None,
        }
    }
}

/// The elements of the lines from `i` on, as one list.
pub open spec fn spans_of(lines: Seq<Seq<u8>>, i: int) -> Seq<Seq<u8>>
    decreases lines.len() - i,
{
    if i >= lines.len() {
        Seq::empty()
    } else {
        top_split(lines[i], ',' as u8) + spans_of(lines, i + 1)
    }
}

/// The bytes of the lines from `i` on.
pub open spec fn bytes_of(lines: Seq<Seq<u8>>, i: int) -> int
    decreases lines.len() - i,
{
    if i >= lines.len() {
        0
    } else {
        lines[i].len() + bytes_of(lines, i + 1)
    }
}

/// The elements that spans claim.
pub open spec fn hops(spans: Seq<Seq<u8>>, xff: bool) -> Seq<ForwardedElement> {
    Seq::new(spans.len(), |i: int| hop_of(spans[i], xff)->Some_0)
}

/// Whether none of the elements is refused.
pub open spec fn all_hops(spans: Seq<Seq<u8>>, xff: bool) -> bool {
    forall|i: int| 0 <= i < spans.len() ==> hop_of(#[trigger] spans[i], xff) is Some
}

/// The last host that is claimed, or else `before`.
pub open spec fn last_claim(
    spans: Seq<Seq<u8>>,
    xff: bool,
    before: Option<Seq<u8>>,
) -> Option<Seq<u8>>
    decreases spans.len(),
{
    if spans.len() == 0 {
        before
    } else if host_claim(spans.last(), xff) is Some {
        host_claim(spans.last(), xff)
    } else {
        last_claim(spans.drop_last(), xff, before)
    }
}

proof fn lemma_last_claim(
    a: Seq<Seq<u8>>,
    b: Seq<Seq<u8>>,
    xff: bool,
    before: Option<Seq<u8>>,
)
    ensures
        last_claim(a + b, xff, before) == last_claim(b, xff, last_claim(a, xff, before)),
    decreases b.len(),
{
    if b.len() == 0 {
        assert(a + b =~= a);
    } else {
        assert((a + b).drop_last() =~= a + b.drop_last());
        assert((a + b).last() == b.last());
        lemma_last_claim(a, b.drop_last(), xff, before);
    }
}

proof fn lemma_step(c: ChainView, span: Seq<u8>, xff: bool, limits: Limits)
    ensures
        span_step(c, span, xff, limits) is Ok <==> hop_of(span, xff) is Some && c.elements.len() + 1
            <= limits.max_forwarded_elements,
        span_step(c, span, xff, limits) matches Ok(d) ==> {
            &&& d.elements == c.elements.push(hop_of(span, xff)->Some_0)
            &&& d.bytes == c.bytes
            &&& d.host == match host_claim(span, xff) {
                Some(h) => Some(h),
                None => c.host,
            }
        },
{
    reveal(span_step);
}

proof fn lemma_spans(c: ChainView, spans: Seq<Seq<u8>>, i: int, xff: bool, limits: Limits)
    requires
        0 <= i <= spans.len(),
    ensures
        ({
            let rest = spans.skip(i);
            &&& spans_from(c, spans, i, xff, limits) is Ok <==> all_hops(rest, xff) && (rest.len()
                == 0 || c.elements.len() + rest.len() <= limits.max_forwarded_elements)
            &&& spans_from(c, spans, i, xff, limits) matches Ok(d) ==> {
                &&& d.elements == c.elements + hops(rest, xff)
                &&& d.bytes == c.bytes
                &&& d.host == last_claim(rest, xff, c.host)
            }
        }),
    decreases spans.len() - i,
{
    let rest = spans.skip(i);
    if i >= spans.len() {
        assert(rest =~= Seq::<Seq<u8>>::empty());
        assert(c.elements + hops(rest, xff) =~= c.elements);
    } else {
        let more = spans.skip(i + 1);
        let span = spans[i];
        assert(rest =~= seq![span] + more);
        lemma_step(c, span, xff, limits);
        assert(all_hops(rest, xff) <==> hop_of(span, xff) is Some && all_hops(more, xff)) by {
            if all_hops(rest, xff) {
                assert(hop_of(rest[0], xff) is Some);
                assert forall|k: int| 0 <= k < more.len() implies hop_of(
                    #[trigger] more[k],
                    xff,
                ) is Some by {
                    assert(rest[k + 1] == more[k]);
                }
            }
            if hop_of(span, xff) is Some && all_hops(more, xff) {
                assert forall|k: int| 0 <= k < rest.len() implies hop_of(
                    #[trigger] rest[k],
                    xff,
                ) is Some by {
                    if k > 0 {
                        assert(more[k - 1] == rest[k]);
                    }
                }
            }
        }
        if let Ok(d) = span_step(c, span, xff, limits) {
            lemma_spans(d, spans, i + 1, xff, limits);
            lemma_last_claim(seq![span], more, xff, c.host);
            assert(seq![span].drop_last() =~= Seq::<Seq<u8>>::empty());
            assert(last_claim(seq![span].drop_last(), xff, c.host) == c.host);
            assert(d.elements + hops(more, xff) =~= c.elements + hops(rest, xff));
        }
    }
}

proof fn lemma_lines(c: ChainView, lines: Seq<Seq<u8>>, i: int, xff: bool, limits: Limits)
    requires
        0 <= i <= lines.len(),
    ensures
        ({
            let spans = spans_of(lines, i);
            let r = lines_from(c, lines, i, xff, limits);
            &&& r is Ok <==> all_hops(spans, xff) && (spans.len() == 0 || c.elements.len()
                + spans.len() <= limits.max_forwarded_elements) && (i == lines.len() || c.bytes
                + bytes_of(lines, i) <= limits.max_forwarded_bytes)
            &&& r matches Ok(d) ==> {
                &&& d.elements == c.elements + hops(spans, xff)
                &&& d.bytes == c.bytes + bytes_of(lines, i)
                &&& d.host == last_claim(spans, xff, c.host)
            }
        }),
        bytes_of(lines, i) >= 0,
    decreases lines.len() - i,
{
    if i >= lines.len() {
        assert(c.elements + hops(spans_of(lines, i), xff) =~= c.elements);
    } else {
        let first = top_split(lines[i], ',' as u8);
        let more = spans_of(lines, i + 1);
        let spans = spans_of(lines, i);
        lemma_bytes(lines, i + 1);
        assert(first.skip(0) =~= first);
        assert(all_hops(spans, xff) <==> all_hops(first, xff) && all_hops(more, xff)) by {
            if all_hops(spans, xff) {
                assert forall|k: int| 0 <= k < first.len() implies hop_of(
                    #[trigger] first[k],
                    xff,
                ) is Some by {
                    assert(spans[k] == first[k]);
                }
                assert forall|k: int| 0 <= k < more.len() implies hop_of(
                    #[trigger] more[k],
                    xff,
                ) is Some by {
                    assert(spans[first.len() + k] == more[k]);
                }
            }
            if all_hops(first, xff) && all_hops(more, xff) {
                assert forall|k: int| 0 <= k < spans.len() implies hop_of(
                    #[trigger] spans[k],
                    xff,
                ) is Some by {
                    if k < first.len() {
                        assert(spans[k] == first[k]);
                    } else {
                        assert(spans[k] == more[k - first.len()]);
                    }
                }
            }
        }
        if let Ok(d) = charged(c, lines[i].len() as int, limits) {
            lemma_spans(d, first, 0, xff, limits);
            if let Ok(f) = spans_from(d, first, 0, xff, limits) {
                lemma_lines(f, lines, i + 1, xff, limits);
                lemma_last_claim(first, more, xff, c.host);
                assert(c.elements + hops(first, xff) + hops(more, xff) =~= c.elements + hops(
                    spans,
                    xff,
                ));
            }
        }
    }
}

proof fn lemma_bytes(lines: Seq<Seq<u8>>, i: int)
    ensures
        bytes_of(lines, i) >= 0,
    decreases lines.len() - i,
{
    if i < lines.len() {
        lemma_bytes(lines, i + 1);
    }
}

proof fn lemma_charge(c: ChainView, lines: Seq<Seq<u8>>, i: int, limits: Limits)
    requires
        0 <= i <= lines.len(),
    ensures
        charge_lines(c, lines, i, limits) is Ok <==> i == lines.len() || c.bytes + bytes_of(
            lines,
            i,
        ) <= limits.max_forwarded_bytes,
        charge_lines(c, lines, i, limits) matches Ok(d) ==> d.elements == c.elements && d.host
            == c.host && d.bytes == c.bytes + bytes_of(lines, i),
        bytes_of(lines, i) >= 0,
    decreases lines.len() - i,
{
    lemma_bytes(lines, i);
    if i < lines.len() {
        lemma_bytes(lines, i + 1);
        if let Ok(d) = charged(c, lines[i].len() as int, limits) {
            lemma_charge(d, lines, i + 1, limits);
        }
    }
}

/// The last token of `X-Forwarded-Proto`.
pub open spec fn last_token(xfp: Seq<Seq<u8>>) -> Seq<u8> {
    trim(top_split(xfp.last(), ',' as u8).last())
}

/// A chain is accepted exactly if every element of it is, there are no more
/// elements than allowed, and the lines of the three fields together are no
/// longer than allowed.
pub proof fn law_chain_accepted(
    forwarded: Seq<Seq<u8>>,
    xff: Seq<Seq<u8>>,
    xfp: Seq<Seq<u8>>,
    limits: Limits,
)
    ensures
        ({
            let f = spans_of(forwarded, 0);
            let x = spans_of(xff, 0);
            let bytes = bytes_of(forwarded, 0) + bytes_of(xff, 0) + bytes_of(xfp, 0);
            chain_of(forwarded, xff, xfp, limits) is Ok <==> all_hops(f, false) && all_hops(x, true)
                && f.len() + x.len() <= limits.max_forwarded_elements && bytes
                <= limits.max_forwarded_bytes
        }),
{
    lemma_chain(forwarded, xff, xfp, limits);
}

/// The elements of an accepted chain are those of the `Forwarded` lines, then
/// those of the `X-Forwarded-For` lines, each as it was written. The last
/// `X-Forwarded-Proto` token is the protocol of the last element, if that has
/// none of its own; it changes no other. The host is the last one claimed.
pub proof fn law_chain_elements(
    forwarded: Seq<Seq<u8>>,
    xff: Seq<Seq<u8>>,
    xfp: Seq<Seq<u8>>,
    limits: Limits,
)
    requires
        chain_of(forwarded, xff, xfp, limits) is Ok,
    ensures
        ({
            let f = spans_of(forwarded, 0);
            let x = spans_of(xff, 0);
            let c = chain_of(forwarded, xff, xfp, limits)->Ok_0;
            let n = f.len() + x.len();
            &&& c.elements.len() == n
            &&& forall|i: int|
                0 <= i < n ==> {
                    let e = #[trigger] c.elements[i];
                    let h = if i < f.len() {
                        hop_of(f[i], false)->Some_0
                    } else {
                        hop_of(x[i - f.len()], true)->Some_0
                    };
                    &&& e.node == h.node
                    &&& e.from_xff == h.from_xff
                    &&& e.from_xff <==> i >= f.len()
                    &&& e.proto == if i == n - 1 && h.proto is None && xfp.len() > 0 {
                        proto_of(last_token(xfp))
                    } else {
                        h.proto
                    }
                }
            &&& c.host == last_claim(f, false, None)
            &&& c.bytes == bytes_of(forwarded, 0) + bytes_of(xff, 0) + bytes_of(xfp, 0)
        }),
{
    let f = spans_of(forwarded, 0);
    let x = spans_of(xff, 0);
    lemma_chain(forwarded, xff, xfp, limits);
    lemma_from_xff(f, false);
    lemma_from_xff(x, true);
    let c = chain_of(forwarded, xff, xfp, limits)->Ok_0;
    let b = ChainView {
        elements: hops(f, false) + hops(x, true),
        host: last_claim(f, false, None),
        hosts: c.hosts,
        bytes: bytes_of(forwarded, 0) + bytes_of(xff, 0) + bytes_of(xfp, 0),
    };
    lemma_with_proto(b, xfp);
    let n = f.len() + x.len();
    assert forall|i: int| 0 <= i < n implies ({
        let e = #[trigger] c.elements[i];
        let h = if i < f.len() {
            hop_of(f[i], false)->Some_0
        } else {
            hop_of(x[i - f.len()], true)->Some_0
        };
        &&& e.node == h.node
        &&& e.from_xff == h.from_xff
        &&& e.from_xff <==> i >= f.len()
        &&& e.proto == if i == n - 1 && h.proto is None && xfp.len() > 0 {
            proto_of(last_token(xfp))
        } else {
            h.proto
        }
    }) by {
        if i < f.len() {
            assert(b.elements[i] == hops(f, false)[i]);
        } else {
            assert(b.elements[i] == hops(x, true)[i - f.len()]);
        }
    }
}

proof fn lemma_from_xff(spans: Seq<Seq<u8>>, xff: bool)
    requires
        all_hops(spans, xff),
    ensures
        forall|i: int| 0 <= i < spans.len() ==> (#[trigger] hops(spans, xff)[i]).from_xff == xff,
{
    assert forall|i: int| 0 <= i < spans.len() implies (#[trigger] hops(spans, xff)[i]).from_xff
        == xff by {
        assert(hop_of(spans[i], xff) is Some);
    }
}

proof fn lemma_with_proto(b: ChainView, xfp: Seq<Seq<u8>>)
    ensures
        ({
            let c = with_proto(b, xfp);
            let n = b.elements.len();
            &&& c.elements.len() == n
            &&& c.host == b.host
            &&& c.bytes == b.bytes
            &&& forall|i: int|
                0 <= i < n ==> {
                    let e = #[trigger] c.elements[i];
                    let h = b.elements[i];
                    &&& e.node == h.node
                    &&& e.from_xff == h.from_xff
                    &&& e.proto == if i == n - 1 && h.proto is None && xfp.len() > 0 {
                        proto_of(last_token(xfp))
                    } else {
                        h.proto
                    }
                }
        }),
{
}

proof fn lemma_no_claims(x: Seq<Seq<u8>>, before: Option<Seq<u8>>)
    ensures
        last_claim(x, true, before) == before,
    decreases x.len(),
{
    if x.len() > 0 {
        lemma_no_claims(x.drop_last(), before);
    }
}

proof fn lemma_chain(
    forwarded: Seq<Seq<u8>>,
    xff: Seq<Seq<u8>>,
    xfp: Seq<Seq<u8>>,
    limits: Limits,
)
    ensures
        ({
            let f = spans_of(forwarded, 0);
            let x = spans_of(xff, 0);
            let bytes = bytes_of(forwarded, 0) + bytes_of(xff, 0) + bytes_of(xfp, 0);
            let r = chain_of(forwarded, xff, xfp, limits);
            &&& r is Ok <==> all_hops(f, false) && all_hops(x, true) && f.len() + x.len()
                <= limits.max_forwarded_elements && bytes <= limits.max_forwarded_bytes
            &&& r matches Ok(c) ==> {
                let b = ChainView {
                    elements: hops(f, false) + hops(x, true),
                    host: last_claim(f, false, None),
                    hosts: c.hosts,
                    bytes,
                };
                c == with_proto(b, xfp)
            }
        }),
{
    let f = spans_of(forwarded, 0);
    let x = spans_of(xff, 0);
    lemma_bytes(forwarded, 0);
    lemma_bytes(xff, 0);
    lemma_bytes(xfp, 0);
    lemma_lines(no_chain(), forwarded, 0, false, limits);
    if let Ok(a) = lines_from(no_chain(), forwarded, 0, false, limits) {
        assert(a.elements =~= hops(f, false));
        lemma_lines(a, xff, 0, true, limits);
        if let Ok(b) = lines_from(a, xff, 0, true, limits) {
            lemma_no_claims(x, a.host);
            lemma_charge(b, xfp, 0, limits);
        }
    }
}

// ---- nodes ----

/// `unknown` in any case names nothing; `_` with letters, digits, `.`, `_` and
/// `-` behind it is an obfuscated identifier, and with anything else, or
/// nothing, behind it unknown.
pub proof fn law_nodes_without_address(v: Seq<u8>)
    ensures
        lower_all(v) == ascii("unknown"@) ==> classify_node(v) == NodeName::Unknown,
        v.len() > 0 && v[0] == 95 ==> classify_node(v) == if v.len() >= 2 && (forall|i: int|
            1 <= i < v.len() ==> 65 <= #[trigger] v[i] <= 90 || 97 <= v[i] <= 122 || 48 <= v[i]
                <= 57 || v[i] == 46 || v[i] == 95 || v[i] == 45) {
            NodeName::Obfuscated
        } else {
            NodeName::Unknown
        },
{
    reveal_strlit("unknown");
    lemma_ascii("unknown"@);
    assert(ascii("unknown"@)[0] == 'u' as u8);
    assert(lower_all(ascii("unknown"@)) =~= ascii("unknown"@));
    if v.len() > 0 && v[0] == 95 {
        if lower_all(v) == ascii("unknown"@) {
            assert(lower_all(v)[0] == 95);
        }
        if forall|i: int|
            1 <= i < v.len() ==> 65 <= #[trigger] v[i] <= 90 || 97 <= v[i] <= 122 || 48 <= v[i]
                <= 57 || v[i] == 46 || v[i] == 95 || v[i] == 45 {
            assert forall|i: int| 1 <= i < v.len() implies obfuscated_byte(#[trigger] v[i]) by {}
        } else {
            let i = choose|i: int|
                1 <= i < v.len() && !(65 <= #[trigger] v[i] <= 90 || 97 <= v[i] <= 122 || 48 <= v[i]
                    <= 57 || v[i] == 46 || v[i] == 95 || v[i] == 45);
            assert(!obfuscated_byte(v[i]));
        }
    }
}

/// Without brackets, two colons make no address.
pub proof fn law_bare_colons_name_nothing(v: Seq<u8>, i: int, j: int)
    requires
        0 <= i < j < v.len(),
        v[i] == 58,
        v[j] == 58,
        v[0] != 91,
        v[0] != 95,
    ensures
        classify_node(v) == NodeName::Unknown,
{
    lemma_find(v, ':' as u8, 0);
    let colon = find(v, ':' as u8, 0);
    assert(colon <= i);
    lemma_find(v, ':' as u8, colon + 1);
}

/// Digits are written in one way: without zeros before them.
pub proof fn law_decimal_is_unique(s: Seq<u8>)
    requires
        s.len() > 0,
        all_digits(s),
        s.len() == 1 || s[0] != 48,
    ensures
        dec_text(dec_value(s)) == s,
        s.len() > 1 ==> dec_value(s) > 0,
        s[0] != 48 ==> dec_value(s) > 0,
    decreases s.len(),
{
    let d = s.drop_last();
    assert(is_digit(s[s.len() - 1]));
    if s.len() == 1 {
        assert(d =~= Seq::<u8>::empty());
        assert(dec_value(d) == 0);
        assert(dec_value(s) == (s.last() - 48) as nat);
        assert(dec_text(dec_value(s)) =~= s);
    } else {
        assert forall|i: int| 0 <= i < d.len() implies is_digit(#[trigger] d[i]) by {
            assert(is_digit(s[i]));
        }
        law_decimal_is_unique(d);
        assert(d[0] == s[0]);
        let n = dec_value(s);
        let m = dec_value(d);
        let k = (s.last() - 48) as nat;
        assert(n == m * 10 + k);
        assert(n / 10 == m && n % 10 == k);
        assert(dec_text(n) =~= s);
    }
}

/// A text is an IPv4 address exactly if it is how that address is written.
pub proof fn law_v4_is_its_text(s: Seq<u8>, v: u32)
    ensures
        v4_of_text(s) == Some(v) <==> s == v4_text(v),
{
    if s == v4_text(v) {
        law_v4_text_reads_back(v);
    }
    if v4_of_text(s) == Some(v) {
        let p = split(s, '.' as u8);
        lemma_octet_text(p[0]);
        lemma_octet_text(p[1]);
        lemma_octet_text(p[2]);
        lemma_octet_text(p[3]);
        law_split_parts_join(s, '.' as u8);
        reveal_with_fuel(joined, 5);
        let a = octet_of_text(p[0])->Some_0;
        let b = octet_of_text(p[1])->Some_0;
        let c = octet_of_text(p[2])->Some_0;
        let d = octet_of_text(p[3])->Some_0;
        crate::net::law_octets_round_trip(a, b, c, d);
        assert(p.skip(1).skip(1) =~= p.skip(2));
        assert(p.skip(2).skip(1) =~= p.skip(3));
        let t = dec_text(a as nat) + seq!['.' as u8] + dec_text(b as nat) + seq!['.' as u8]
            + dec_text(c as nat) + seq!['.' as u8] + dec_text(d as nat);
        assert(s =~= t);
        assert(octets_of(v) =~= seq![a, b, c, d]);
    }
}

proof fn lemma_octet_text(s: Seq<u8>)
    requires
        octet_of_text(s) is Some,
    ensures
        dec_text((octet_of_text(s)->Some_0) as nat) == s,
{
    law_decimal_is_unique(s);
}

/// A port is written with digits; a plus sign before them says nothing, more
/// than 65535 is none, and zero stands for no port.
pub proof fn law_node_ports(a: u32, d: Seq<u8>)
    requires
        all_digits10(d),
        d.len() > 0,
    ensures
        node_port_of_text(d) == if number10(d) <= 65535 {
            Some(number10(d) as u16)
        } else {
            None
        },
        node_port_of_text(seq![43u8] + d) == node_port_of_text(d),
        classify_node(v4_text(a)) == (NodeName::Addr { addr: IpAddr::V4(a), port: None }),
        classify_node(v4_text(a) + seq![58u8] + d) == if number10(d) > 65535 {
            NodeName::Unknown
        } else if number10(d) == 0 {
            NodeName::Addr { addr: IpAddr::V4(a), port: None }
        } else {
            NodeName::Addr { addr: IpAddr::V4(a), port: Some(number10(d) as u16) }
        },
{
    lemma_number10(d);
    assert((seq![43u8] + d).skip(1) =~= d);
    assert(48 <= d[0] <= 57);
    let t = v4_text(a);
    let v = t + seq![58u8] + d;
    law_v4_text_reads_back(a);
    crate::addr_laws::lemma_v4_bytes(a);
    assert(v[0] == t[0]);
    lemma_not_a_word(t);
    lemma_not_a_word(v);
    assert forall|j: int| 0 <= j < t.len() implies t[j] != ':' as u8 by {}
    lemma_find(t, ':' as u8, 0);
    assert forall|j: int| 0 <= j < t.len() implies v[j] != ':' as u8 by {
        assert(v[j] == t[j]);
    }
    assert(v[t.len() as int] == 58);
    lemma_find_is(v, ':' as u8, 0, t.len() as int);
    lemma_find(v, ':' as u8, t.len() as int + 1);
    let second = find(v, ':' as u8, t.len() as int + 1);
    if second < v.len() {
        assert(v[second] == d[second - t.len() - 1]);
    }
    assert(v.take(t.len() as int) =~= t);
    assert(v.skip(t.len() as int + 1) =~= d);
}

proof fn lemma_not_a_word(v: Seq<u8>)
    requires
        v.len() > 0,
        48 <= v[0] <= 57,
    ensures
        lower_all(v) != lower_all(ascii("unknown"@)),
        !obfuscated(v),
{
    reveal_strlit("unknown");
    lemma_ascii("unknown"@);
    assert(lower_all(ascii("unknown"@))[0] == 'u' as u8);
    assert(lower_all(v)[0] == v[0]);
}

} // verus!
