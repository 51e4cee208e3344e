//! What an element of a `Forwarded` field says, parameter by parameter.
use crate::addr_laws::law_node_text_reads_back;
use crate::addr_text::{
    join_groups, lemma_longest_zeros, longest_zeros, node_text, port_suffix, v4_text, v6_text,
};
use crate::authority::{authority_text, canonical_host, host_byte, AuthorityView};
use crate::chain_laws::law_split_at_a_separator;
use crate::field::{law_trim_shape, lemma_trim_id, trim};
use crate::forwarded::{
    classify_node, element_of, interior, left_open, node_name, param_step, params_from, proto_of,
    scheme_of, top_find, top_split, unescape, unquoted, NodeName, Params,
};
use crate::laws::classes::{blank, law_trim_takes_blanks, law_trimmed_is_tight, tight};
use crate::net::{groups_of, octets_of, IpAddr, SocketAddr};
use crate::num::{
    all_digits, dec_text, hex_text, law_decimal_round_trip, law_hex_round_trip, lemma_dec_text_len,
    lemma_hex_text_len, pow10, pow16,
};
use crate::peer::{forwarded_text, PeerIdentity};
use crate::scalar::Scheme;
use crate::text::{ascii, find, is_digit, is_hex, lemma_ascii, lemma_find, lemma_find_is, lower_all};
use vstd::prelude::*;

verus! {

/// Whether a parameter is written `name=value`, with the name in any case and
/// blanks around both.
pub open spec fn says(pair: Seq<u8>, name: Seq<u8>, value: Seq<u8>) -> bool {
    exists|a: Seq<u8>, n: Seq<u8>, b: Seq<u8>, c: Seq<u8>, d: Seq<u8>| #[trigger]
        written_as(pair, a, n, b, c, value, d) && lower_all(n) == name
}

/// A name and a value with `=` between them and blanks around both.
pub open spec fn written_as(
    pair: Seq<u8>,
    a: Seq<u8>,
    n: Seq<u8>,
    b: Seq<u8>,
    c: Seq<u8>,
    value: Seq<u8>,
    d: Seq<u8>,
) -> bool {
    &&& pair == a + n + b + seq![61u8] + c + value + d
    &&& blank(a) && blank(b) && blank(c) && blank(d)
    &&& tight(n) && tight(value)
    &&& !n.contains(61u8)
}

/// Whether some parameter of an element has this name.
pub open spec fn has_param(pairs: Seq<Seq<u8>>, name: Seq<u8>) -> bool {
    exists|i: int, value: Seq<u8>| 0 <= i < pairs.len() && #[trigger] says(pairs[i], name, value)
}

#[verifier::opaque]
spec fn key(pair: Seq<u8>) -> Seq<u8> {
    let t = trim(pair);
    lower_all(trim(t.take(find(t, 61u8, 0))))
}

#[verifier::opaque]
spec fn val(pair: Seq<u8>) -> Seq<u8> {
    let t = trim(pair);
    trim(t.skip(find(t, 61u8, 0) + 1))
}

#[verifier::opaque]
spec fn has_eq(pair: Seq<u8>) -> bool {
    find(trim(pair), 61u8, 0) < trim(pair).len()
}

proof fn lemma_words()
    ensures
        lower_all(ascii("for"@)) == ascii("for"@),
        lower_all(ascii("proto"@)) == ascii("proto"@),
        lower_all(ascii("host"@)) == ascii("host"@),
        lower_all(ascii("by"@)) == ascii("by"@),
        ascii("for"@) == seq!['f' as u8, 'o' as u8, 'r' as u8],
        ascii("proto"@) == seq!['p' as u8, 'r' as u8, 'o' as u8, 't' as u8, 'o' as u8],
        ascii("host"@) == seq!['h' as u8, 'o' as u8, 's' as u8, 't' as u8],
        ascii("by"@) == seq!['b' as u8, 'y' as u8],
{
    reveal_strlit("for");
    reveal_strlit("proto");
    reveal_strlit("host");
    reveal_strlit("by");
    lemma_ascii("for"@);
    lemma_ascii("proto"@);
    lemma_ascii("host"@);
    lemma_ascii("by"@);
    assert(ascii("for"@) =~= seq!['f' as u8, 'o' as u8, 'r' as u8]);
    assert(ascii("proto"@) =~= seq!['p' as u8, 'r' as u8, 'o' as u8, 't' as u8, 'o' as u8]);
    assert(ascii("host"@) =~= seq!['h' as u8, 'o' as u8, 's' as u8, 't' as u8]);
    assert(ascii("by"@) =~= seq!['b' as u8, 'y' as u8]);
    assert(lower_all(ascii("for"@)) =~= ascii("for"@));
    assert(lower_all(ascii("proto"@)) =~= ascii("proto"@));
    assert(lower_all(ascii("host"@)) =~= ascii("host"@));
    assert(lower_all(ascii("by"@)) =~= ascii("by"@));
}

/// The name and value of a written parameter are what is read.
proof fn lemma_says(pair: Seq<u8>, name: Seq<u8>, value: Seq<u8>)
    requires
        says(pair, name, value),
    ensures
        has_eq(pair),
        key(pair) == name,
        val(pair) == value,
{
    reveal(key);
    reveal(val);
    reveal(has_eq);
    let (a, n, b, c, d) = choose|
        a: Seq<u8>,
        n: Seq<u8>,
        b: Seq<u8>,
        c: Seq<u8>,
        d: Seq<u8>,
    | #[trigger]
        written_as(pair, a, n, b, c, value, d) && lower_all(n) == name;
    let none = Seq::<u8>::empty();
    // What stands to the left of the sign, and to the right of it.
    let left = if n.len() > 0 {
        n + b
    } else {
        none
    };
    let right = if value.len() > 0 {
        c + value
    } else {
        none
    };
    let head = if n.len() > 0 {
        a
    } else {
        a + b
    };
    let foot = if value.len() > 0 {
        d
    } else {
        c + d
    };
    assert(blank(head));
    assert(blank(foot));
    let t = left + seq![61u8] + right;
    assert(tight(t));
    assert(pair =~= head + t + foot);
    law_trim_takes_blanks(head, t, foot);
    assert forall|j: int| 0 <= j < left.len() implies t[j] != 61u8 by {
        if j < n.len() {
            assert(t[j] == n[j]);
            assert(n.contains(n[j]));
        } else {
            assert(t[j] == b[j - n.len()]);
        }
    }
    assert(t[left.len() as int] == 61u8);
    lemma_find_is(t, 61u8, 0, left.len() as int);
    assert(t.take(left.len() as int) =~= left);
    assert(t.skip(left.len() as int + 1) =~= right);
    assert(blank(none));
    if n.len() > 0 {
        law_trim_takes_blanks(none, n, b);
        assert(none + n + b =~= left);
    } else {
        lemma_trim_id(left);
        assert(n =~= left);
    }
    if value.len() > 0 {
        law_trim_takes_blanks(c, value, none);
        assert(c + value + none =~= right);
    } else {
        lemma_trim_id(right);
        assert(value =~= right);
    }
}

/// A text is its trim between blanks.
proof fn lemma_untrim(s: Seq<u8>) -> (r: (Seq<u8>, Seq<u8>))
    ensures
        s == r.0 + trim(s) + r.1,
        blank(r.0),
        blank(r.1),
        tight(trim(s)),
{
    law_trim_shape(s);
    law_trimmed_is_tight(s);
    let (i, j) = choose|a: int, b: int|
        0 <= a <= b <= s.len() && trim(s) == #[trigger] s.subrange(a, b) && (forall|j: int|
            0 <= j < a || b <= j < s.len() ==> crate::text::is_ows(#[trigger] s[j]));
    let a = s.take(i);
    let b = s.skip(j);
    assert forall|k: int| 0 <= k < a.len() implies #[trigger] a[k] == 32 || a[k] == 9 by {
        assert(crate::text::is_ows(s[k]));
    }
    assert forall|k: int| 0 <= k < b.len() implies #[trigger] b[k] == 32 || b[k] == 9 by {
        assert(crate::text::is_ows(s[j + k]));
    }
    assert(s =~= a + trim(s) + b);
    (a, b)
}

/// Every parameter with a sign in it is written in this way.
proof fn lemma_is_said(pair: Seq<u8>)
    requires
        has_eq(pair),
    ensures
        says(pair, key(pair), val(pair)),
{
    reveal(key);
    reveal(val);
    reveal(has_eq);
    let t = trim(pair);
    let at = find(t, 61u8, 0);
    lemma_find(t, 61u8, 0);
    let (a, d) = lemma_untrim(pair);
    let l = t.take(at);
    let r = t.skip(at + 1);
    let (a2, b) = lemma_untrim(l);
    let (c, d2) = lemma_untrim(r);
    let n = trim(l);
    assert(!n.contains(61u8)) by {
        if n.contains(61u8) {
            let k = choose|k: int| 0 <= k < n.len() && n[k] == 61u8;
            assert(l[a2.len() + k] == n[k]);
            assert(t[a2.len() + k] == 61u8);
        }
    }
    assert(t =~= l + seq![61u8] + r);
    assert(pair =~= (a + a2) + n + b + seq![61u8] + c + val(pair) + (d2 + d));
    assert(blank(a + a2));
    assert(blank(d2 + d));
    assert(written_as(pair, a + a2, n, b, c, val(pair), d2 + d));
}

// ---- the parameters of an element ----

spec fn one_of(pairs: Seq<Seq<u8>>, i: int, name: Seq<u8>) -> bool {
    exists|j: int| i <= j < pairs.len() && key(#[trigger] pairs[j]) == name
}

spec fn twice(pairs: Seq<Seq<u8>>, i: int, name: Seq<u8>) -> bool {
    exists|j: int, k: int|
        i <= j < k < pairs.len() && key(#[trigger] pairs[j]) == name && key(#[trigger] pairs[k])
            == name
}

spec fn all_eq(pairs: Seq<Seq<u8>>, i: int) -> bool {
    forall|j: int| i <= j < pairs.len() ==> has_eq(#[trigger] pairs[j])
}

/// What reading the parameters from `i` on comes to.
proof fn lemma_params(p: Params, pairs: Seq<Seq<u8>>, i: int)
    requires
        0 <= i <= pairs.len(),
    ensures
        params_from(p, pairs, i) is Ok <==> {
            &&& all_eq(pairs, i)
            &&& !twice(pairs, i, ascii("for"@)) && !(p.node is Some && one_of(
                pairs,
                i,
                ascii("for"@),
            ))
            &&& !twice(pairs, i, ascii("proto"@)) && !(p.proto is Some && one_of(
                pairs,
                i,
                ascii("proto"@),
            ))
            &&& !twice(pairs, i, ascii("host"@)) && !(p.host is Some && one_of(
                pairs,
                i,
                ascii("host"@),
            ))
            &&& !twice(pairs, i, ascii("by"@)) && !(p.by && one_of(pairs, i, ascii("by"@)))
        },
        params_from(p, pairs, i) matches Ok(q) ==> {
            &&& !one_of(pairs, i, ascii("for"@)) ==> q.node == p.node
            &&& !one_of(pairs, i, ascii("proto"@)) ==> q.proto == p.proto
            &&& !one_of(pairs, i, ascii("host"@)) ==> q.host == p.host
            &&& forall|j: int|
                i <= j < pairs.len() ==> {
                    &&& key(#[trigger] pairs[j]) == ascii("for"@) ==> q.node == Some(
                        node_name(val(pairs[j])),
                    )
                    &&& key(pairs[j]) == ascii("proto"@) ==> q.proto == Some(
                        proto_of(val(pairs[j])),
                    )
                    &&& key(pairs[j]) == ascii("host"@) ==> q.host == Some(val(pairs[j]))
                }
        },
    decreases pairs.len() - i,
{
    reveal(key);
    reveal(val);
    reveal(has_eq);
    lemma_words();
    if i < pairs.len() {
        let pair = pairs[i];
        lemma_once(pairs, i, ascii("for"@));
        lemma_once(pairs, i, ascii("proto"@));
        lemma_once(pairs, i, ascii("host"@));
        lemma_once(pairs, i, ascii("by"@));
        assert(all_eq(pairs, i) <==> has_eq(pair) && all_eq(pairs, i + 1));
        lemma_find(trim(pair), 61u8, 0);
        if let Ok(q) = param_step(p, pair) {
            lemma_params(q, pairs, i + 1);
        }
    }
}

proof fn lemma_once(pairs: Seq<Seq<u8>>, i: int, name: Seq<u8>)
    requires
        0 <= i < pairs.len(),
    ensures
        one_of(pairs, i, name) <==> key(pairs[i]) == name || one_of(pairs, i + 1, name),
        twice(pairs, i, name) <==> twice(pairs, i + 1, name) || key(pairs[i]) == name && one_of(
            pairs,
            i + 1,
            name,
        ),
{
    if key(pairs[i]) == name && one_of(pairs, i + 1, name) {
        let j = choose|j: int| i + 1 <= j < pairs.len() && key(#[trigger] pairs[j]) == name;
        assert(key(pairs[i]) == name && key(pairs[j]) == name);
    }
    if twice(pairs, i + 1, name) {
        let (j, k) = choose|j: int, k: int|
            i + 1 <= j < k < pairs.len() && key(#[trigger] pairs[j]) == name && key(
                #[trigger] pairs[k],
            ) == name;
        assert(key(pairs[j]) == name && key(pairs[k]) == name);
    }
    if twice(pairs, i, name) && !twice(pairs, i + 1, name) {
        let (j, k) = choose|j: int, k: int|
            i <= j < k < pairs.len() && key(#[trigger] pairs[j]) == name && key(#[trigger] pairs[k])
                == name;
        assert(key(pairs[j]) == name && key(pairs[k]) == name);
        assert(j == i);
    }
}

/// The node of an accepted element is the one that its `for` parameter names,
/// wherever that stands, and without one it is absent. Its scheme and its host
/// are those of `proto` and `host` in the same way.
pub proof fn law_element_parameters(raw: Seq<u8>)
    requires
        element_of(raw) is Ok,
    ensures
        ({
            let e = element_of(raw)->Ok_0;
            let pairs = top_split(trim(raw), ';' as u8);
            &&& forall|i: int, value: Seq<u8>|
                0 <= i < pairs.len() && #[trigger] says(pairs[i], ascii("for"@), value) ==> e.node
                    == node_name(value)
            &&& forall|i: int, value: Seq<u8>|
                0 <= i < pairs.len() && #[trigger] says(pairs[i], ascii("proto"@), value)
                    ==> e.proto == proto_of(value)
            &&& forall|i: int, value: Seq<u8>|
                0 <= i < pairs.len() && #[trigger] says(pairs[i], ascii("host"@), value) ==> e.host
                    == Some(value)
            &&& !has_param(pairs, ascii("for"@)) ==> e.node == NodeName::Absent
            &&& !has_param(pairs, ascii("proto"@)) ==> e.proto == None::<Scheme>
            &&& !has_param(pairs, ascii("host"@)) ==> e.host == None::<Seq<u8>>
        }),
{
    let pairs = top_split(trim(raw), ';' as u8);
    let p = Params { node: None, proto: None, host: None, by: false };
    lemma_params(p, pairs, 0);
    assert forall|i: int, name: Seq<u8>, value: Seq<u8>|
        0 <= i < pairs.len() && #[trigger] says(pairs[i], name, value) implies key(pairs[i]) == name
        && val(pairs[i]) == value by {
        lemma_says(pairs[i], name, value);
    }
    lemma_has_param(pairs, ascii("for"@));
    lemma_has_param(pairs, ascii("proto"@));
    lemma_has_param(pairs, ascii("host"@));
}

proof fn lemma_has_param(pairs: Seq<Seq<u8>>, name: Seq<u8>)
    requires
        all_eq(pairs, 0),
    ensures
        has_param(pairs, name) <==> one_of(pairs, 0, name),
{
    if one_of(pairs, 0, name) {
        let j = choose|j: int| 0 <= j < pairs.len() && key(#[trigger] pairs[j]) == name;
        lemma_is_said(pairs[j]);
        assert(says(pairs[j], name, val(pairs[j])));
    }
    if has_param(pairs, name) {
        let (i, value) = choose|i: int, value: Seq<u8>|
            0 <= i < pairs.len() && #[trigger] says(pairs[i], name, value);
        lemma_says(pairs[i], name, value);
        assert(key(pairs[i]) == name);
    }
}

/// Whether two parameters have this name.
pub open spec fn has_param_twice(pairs: Seq<Seq<u8>>, name: Seq<u8>) -> bool {
    exists|i: int, j: int, v: Seq<u8>, w: Seq<u8>|
        0 <= i < j < pairs.len() && #[trigger] says(pairs[i], name, v) && #[trigger] says(
            pairs[j],
            name,
            w,
        )
}

/// Whether every parameter is a name and a value.
pub open spec fn all_said(pairs: Seq<Seq<u8>>) -> bool {
    forall|i: int| 0 <= i < pairs.len() ==> is_said(#[trigger] pairs[i])
}

/// Whether a parameter is a name and a value.
pub open spec fn is_said(pair: Seq<u8>) -> bool {
    exists|name: Seq<u8>, value: Seq<u8>| #[trigger] says(pair, name, value)
}

/// An element is accepted exactly if it is not blank, every parameter of it is
/// a name and a value, and none of `for`, `proto`, `host` and `by` is given
/// twice.
pub proof fn law_element_accepted(raw: Seq<u8>)
    ensures
        ({
            let pairs = top_split(trim(raw), ';' as u8);
            element_of(raw) is Ok <==> {
                &&& trim(raw).len() > 0
                &&& all_said(pairs)
                &&& !has_param_twice(pairs, ascii("for"@))
                &&& !has_param_twice(pairs, ascii("proto"@))
                &&& !has_param_twice(pairs, ascii("host"@))
                &&& !has_param_twice(pairs, ascii("by"@))
            }
        }),
{
    let pairs = top_split(trim(raw), ';' as u8);
    let p = Params { node: None, proto: None, host: None, by: false };
    lemma_params(p, pairs, 0);
    if all_eq(pairs, 0) {
        assert forall|i: int| 0 <= i < pairs.len() implies is_said(#[trigger] pairs[i]) by {
            lemma_is_said(pairs[i]);
        }
        lemma_has_twice(pairs, ascii("for"@));
        lemma_has_twice(pairs, ascii("proto"@));
        lemma_has_twice(pairs, ascii("host"@));
        lemma_has_twice(pairs, ascii("by"@));
    } else {
        let i = choose|i: int| 0 <= i < pairs.len() && !has_eq(#[trigger] pairs[i]);
        if is_said(pairs[i]) {
            let (n, v) = choose|n: Seq<u8>, v: Seq<u8>| #[trigger] says(pairs[i], n, v);
            lemma_says(pairs[i], n, v);
        }
    }
}

proof fn lemma_has_twice(pairs: Seq<Seq<u8>>, name: Seq<u8>)
    requires
        all_eq(pairs, 0),
    ensures
        has_param_twice(pairs, name) <==> twice(pairs, 0, name),
{
    if twice(pairs, 0, name) {
        let (j, k) = choose|j: int, k: int|
            0 <= j < k < pairs.len() && key(#[trigger] pairs[j]) == name && key(#[trigger] pairs[k])
                == name;
        lemma_is_said(pairs[j]);
        lemma_is_said(pairs[k]);
        assert(says(pairs[j], name, val(pairs[j])) && says(pairs[k], name, val(pairs[k])));
    }
    if has_param_twice(pairs, name) {
        let (i, j, v, w) = choose|i: int, j: int, v: Seq<u8>, w: Seq<u8>|
            0 <= i < j < pairs.len() && #[trigger] says(pairs[i], name, v) && #[trigger] says(
                pairs[j],
                name,
                w,
            );
        lemma_says(pairs[i], name, v);
        lemma_says(pairs[j], name, w);
        assert(key(pairs[i]) == name && key(pairs[j]) == name);
    }
}

/// What a `by` parameter says changes nothing: an element with another `by`,
/// or with one put in among its parameters, reads the same.
pub proof fn law_by_changes_nothing(a: Seq<u8>, b: Seq<u8>, k: int, pair: Seq<u8>, value: Seq<u8>)
    requires
        element_of(a) is Ok,
        element_of(b) is Ok,
        says(pair, ascii("by"@), value),
        ({
            let pa = top_split(trim(a), ';' as u8);
            let pb = top_split(trim(b), ';' as u8);
            ||| 0 <= k <= pa.len() && pb == pa.insert(k, pair)
            ||| 0 <= k < pa.len() && pb == pa.update(k, pair) && exists|w: Seq<u8>| #[trigger]
                says(pa[k], ascii("by"@), w)
        }),
    ensures
        element_of(a) == element_of(b),
{
    let pa = top_split(trim(a), ';' as u8);
    let pb = top_split(trim(b), ';' as u8);
    lemma_says(pair, ascii("by"@), value);
    let put = pb.len() != pa.len();
    if !put {
        let w = choose|w: Seq<u8>| #[trigger] says(pa[k], ascii("by"@), w);
        lemma_says(pa[k], ascii("by"@), w);
    }
    lemma_words();
    lemma_same_for(pa, pb, k, pair, put);
    lemma_same_proto(pa, pb, k, pair, put);
    lemma_same_host(pa, pb, k, pair, put);
}

/// One list of parameters is another with one more, or another one, at `k`.
spec fn with_pair(pa: Seq<Seq<u8>>, pb: Seq<Seq<u8>>, k: int, pair: Seq<u8>, put: bool) -> bool {
    if put {
        0 <= k <= pa.len() && pb == pa.insert(k, pair)
    } else {
        0 <= k < pa.len() && pb == pa.update(k, pair) && key(pa[k]) == key(pair)
    }
}

/// Where the parameter of another name stands in both.
proof fn lemma_same_one(
    pa: Seq<Seq<u8>>,
    pb: Seq<Seq<u8>>,
    k: int,
    pair: Seq<u8>,
    put: bool,
    name: Seq<u8>,
) -> (r: (int, int))
    requires
        with_pair(pa, pb, k, pair, put),
        key(pair) != name,
    ensures
        one_of(pa, 0, name) == one_of(pb, 0, name),
        one_of(pa, 0, name) ==> 0 <= r.0 < pa.len() && 0 <= r.1 < pb.len() && pa[r.0] == pb[r.1]
            && key(pa[r.0]) == name,
{
    if one_of(pa, 0, name) {
        let j = choose|j: int| 0 <= j < pa.len() && key(#[trigger] pa[j]) == name;
        let m = if put && j >= k {
            j + 1
        } else {
            j
        };
        assert(pb[m] == pa[j]);
        (j, m)
    } else {
        if one_of(pb, 0, name) {
            let j = choose|j: int| 0 <= j < pb.len() && key(#[trigger] pb[j]) == name;
            assert(j != k);
            let m = if put && j > k {
                j - 1
            } else {
                j
            };
            assert(pa[m] == pb[j]);
        }
        (0, 0)
    }
}

proof fn lemma_same_for(pa: Seq<Seq<u8>>, pb: Seq<Seq<u8>>, k: int, pair: Seq<u8>, put: bool)
    requires
        with_pair(pa, pb, k, pair, put),
        key(pair) != ascii("for"@),
        params_from(Params { node: None, proto: None, host: None, by: false }, pa, 0) is Ok,
        params_from(Params { node: None, proto: None, host: None, by: false }, pb, 0) is Ok,
    ensures
        ({
            let p = Params { node: None, proto: None, host: None, by: false };
            params_from(p, pa, 0)->Ok_0.node == params_from(p, pb, 0)->Ok_0.node
        }),
{
    let p = Params { node: None, proto: None, host: None, by: false };
    let (i, j) = lemma_same_one(pa, pb, k, pair, put, ascii("for"@));
    lemma_params(p, pa, 0);
    lemma_params(p, pb, 0);
}

proof fn lemma_same_proto(pa: Seq<Seq<u8>>, pb: Seq<Seq<u8>>, k: int, pair: Seq<u8>, put: bool)
    requires
        with_pair(pa, pb, k, pair, put),
        key(pair) != ascii("proto"@),
        params_from(Params { node: None, proto: None, host: None, by: false }, pa, 0) is Ok,
        params_from(Params { node: None, proto: None, host: None, by: false }, pb, 0) is Ok,
    ensures
        ({
            let p = Params { node: None, proto: None, host: None, by: false };
            params_from(p, pa, 0)->Ok_0.proto == params_from(p, pb, 0)->Ok_0.proto
        }),
{
    let p = Params { node: None, proto: None, host: None, by: false };
    let (i, j) = lemma_same_one(pa, pb, k, pair, put, ascii("proto"@));
    lemma_params(p, pa, 0);
    lemma_params(p, pb, 0);
}

proof fn lemma_same_host(pa: Seq<Seq<u8>>, pb: Seq<Seq<u8>>, k: int, pair: Seq<u8>, put: bool)
    requires
        with_pair(pa, pb, k, pair, put),
        key(pair) != ascii("host"@),
        params_from(Params { node: None, proto: None, host: None, by: false }, pa, 0) is Ok,
        params_from(Params { node: None, proto: None, host: None, by: false }, pb, 0) is Ok,
    ensures
        ({
            let p = Params { node: None, proto: None, host: None, by: false };
            params_from(p, pa, 0)->Ok_0.host == params_from(p, pb, 0)->Ok_0.host
        }),
{
    let p = Params { node: None, proto: None, host: None, by: false };
    let (i, j) = lemma_same_one(pa, pb, k, pair, put, ascii("host"@));
    lemma_params(p, pa, 0);
    lemma_params(p, pb, 0);
}

// ---- what is written ----

/// Whether a text has neither a quote nor a backslash in it.
pub open spec fn plain(s: Seq<u8>) -> bool {
    forall|i: int| 0 <= i < s.len() ==> #[trigger] s[i] != 34 && s[i] != 92
}

/// A quoted string without escapes names what stands between the quotes.
pub proof fn law_quotes_are_taken_off(s: Seq<u8>)
    requires
        plain(s),
    ensures
        unquoted(seq![34u8] + s + seq![34u8]) == s,
        s.len() <= 64 ==> node_name(seq![34u8] + s + seq![34u8]) == classify_node(s),
        s.len() <= 64 ==> proto_of(seq![34u8] + s + seq![34u8]) == scheme_of(s),
{
    let q = seq![34u8] + s + seq![34u8];
    assert(interior(q) =~= s);
    assert(q.last() == 34u8);
    lemma_unescape_plain(s);
}

pub proof fn lemma_unescape_plain(s: Seq<u8>)
    requires
        plain(s),
    ensures
        unescape(s) == s,
    decreases s.len(),
{
    if s.len() > 0 {
        let r = s.skip(1);
        assert forall|i: int| 0 <= i < r.len() implies #[trigger] r[i] != 34 && r[i] != 92 by {
            assert(s[i + 1] != 34 && s[i + 1] != 92);
        }
        lemma_unescape_plain(r);
        assert(s[0] != 92);
        assert(s =~= seq![s[0]] + r);
    } else {
        assert(s =~= Seq::<u8>::empty());
    }
}

/// A backslash gives the byte behind it.
pub proof fn law_escapes_are_resolved(a: Seq<u8>, b: u8, c: Seq<u8>)
    requires
        plain(a),
    ensures
        unescape(a + seq![92u8, b] + c) == a + seq![b] + unescape(c),
    decreases a.len(),
{
    let s = a + seq![92u8, b] + c;
    if a.len() == 0 {
        assert(s.skip(2) =~= c);
        assert(a + seq![b] + unescape(c) =~= seq![b] + unescape(c));
    } else {
        let r = a.skip(1);
        assert forall|i: int| 0 <= i < r.len() implies #[trigger] r[i] != 34 && r[i] != 92 by {
            assert(a[i + 1] != 34 && a[i + 1] != 92);
        }
        law_escapes_are_resolved(r, b, c);
        assert(a[0] != 92);
        assert(s[0] == a[0]);
        assert(s.skip(1) =~= r + seq![92u8, b] + c);
        assert(a + seq![b] + unescape(c) =~= seq![a[0]] + (r + seq![b] + unescape(c)));
    }
}

/// A text without quotes and separators, then a quoted string without escapes,
/// is one part.
proof fn lemma_one_part(x: Seq<u8>, s: Seq<u8>)
    requires
        forall|i: int| 0 <= i < x.len() ==> #[trigger] x[i] != 34 && x[i] != 59,
        plain(s),
    ensures
        top_split(x + seq![34u8] + s + seq![34u8], ';' as u8) == seq![
            x + seq![34u8] + s + seq![34u8],
        ],
        !left_open(x + seq![34u8] + s + seq![34u8], 0, false, false),
{
    let t = x + seq![34u8] + s + seq![34u8];
    lemma_outside(t, 0, x.len() as int);
    assert(t[x.len() as int] == 34);
    assert forall|i: int| x.len() < i < t.len() - 1 implies #[trigger] t[i] != 34 && t[i]
        != 92 by {
        assert(t[i] == s[i - x.len() - 1]);
    }
    lemma_inside(t, x.len() as int + 1);
}

proof fn lemma_outside(t: Seq<u8>, i: int, to: int)
    requires
        0 <= i <= to <= t.len(),
        forall|j: int| i <= j < to ==> #[trigger] t[j] != 34 && t[j] != 59,
    ensures
        top_find(t, ';' as u8, i, false, false) == top_find(t, ';' as u8, to, false, false),
        left_open(t, i, false, false) == left_open(t, to, false, false),
    decreases to - i,
{
    if i < to {
        assert(t[i] != 34 && t[i] != 59);
        lemma_outside(t, i + 1, to);
    }
}

proof fn lemma_inside(t: Seq<u8>, i: int)
    requires
        0 <= i < t.len(),
        t.last() == 34,
        forall|j: int| i <= j < t.len() - 1 ==> #[trigger] t[j] != 34 && t[j] != 92,
    ensures
        top_find(t, ';' as u8, i, true, false) == t.len(),
        !left_open(t, i, true, false),
    decreases t.len() - i,
{
    if i + 1 < t.len() {
        assert(t[i] != 34 && t[i] != 92);
        lemma_inside(t, i + 1);
    } else {
        assert(t[i] == 34);
        reveal_with_fuel(top_find, 3);
        reveal_with_fuel(left_open, 3);
    }
}

/// The bytes and the length of a written address.
proof fn lemma_node_text(addr: IpAddr, port: Option<u16>)
    ensures
        plain(node_text(addr, port)),
        0 < node_text(addr, port).len() <= 60,
{
    let t = node_text(addr, port);
    let f = port_suffix(port);
    reveal_with_fuel(pow10, 6);
    if let Some(p) = port {
        law_decimal_round_trip(p as nat);
        lemma_dec_text_len(p as nat, 5);
        lemma_plain_digits(dec_text(p as nat));
    }
    assert(plain(f));
    match addr {
        IpAddr::V4(v) => {
            let o = octets_of(v);
            lemma_octet_text(o[0]);
            lemma_octet_text(o[1]);
            lemma_octet_text(o[2]);
            lemma_octet_text(o[3]);
            assert(plain(v4_text(v)));
        },
        IpAddr::V6(v) => {
            let g = groups_of(v as nat, 8);
            lemma_groups_len(v as nat, 8);
            lemma_longest_zeros(g, 0);
            match longest_zeros(g, 0) {
                None => lemma_groups_text(g, 0, 8),
                Some((at, n)) => {
                    lemma_groups_text(g, 0, at);
                    lemma_groups_text(g, at + n, 8);
                },
            }
            assert(plain(v6_text(v)));
        },
    }
}

proof fn lemma_groups_len(v: nat, n: nat)
    ensures
        groups_of(v, n).len() == n,
    decreases n,
{
    if n > 0 {
        lemma_groups_len(v / 65536, (n - 1) as nat);
    }
}

proof fn lemma_plain_digits(s: Seq<u8>)
    requires
        all_digits(s),
    ensures
        plain(s),
{
    assert forall|i: int| 0 <= i < s.len() implies #[trigger] s[i] != 34 && s[i] != 92 by {
        assert(is_digit(s[i]));
    }
}

proof fn lemma_octet_text(o: u8)
    ensures
        plain(dec_text(o as nat)),
        0 < dec_text(o as nat).len() <= 3,
{
    reveal_with_fuel(pow10, 4);
    law_decimal_round_trip(o as nat);
    lemma_dec_text_len(o as nat, 3);
    lemma_plain_digits(dec_text(o as nat));
}

proof fn lemma_groups_text(g: Seq<u16>, from: int, to: int)
    requires
        0 <= from <= to <= g.len(),
    ensures
        plain(join_groups(g, from, to)),
        join_groups(g, from, to).len() <= 5 * (to - from),
    decreases to - from,
{
    if from < to {
        let y = hex_text(g[to - 1] as nat);
        reveal_with_fuel(pow16, 5);
        law_hex_round_trip(g[to - 1] as nat);
        lemma_hex_text_len(g[to - 1] as nat, 4);
        assert forall|i: int| 0 <= i < y.len() implies #[trigger] y[i] != 34 && y[i] != 92 by {
            assert(is_hex(y[i]));
        }
        if from + 1 < to {
            lemma_groups_text(g, from, to - 1);
        }
    }
}

proof fn lemma_literals()
    ensures
        ascii("for=\""@) == ascii("for"@) + seq![61u8, 34u8],
        ascii("\";by=\""@) == seq![34u8, 59u8] + ascii("by"@) + seq![61u8, 34u8],
        ascii("\";proto="@) == seq![34u8, 59u8] + ascii("proto"@) + seq![61u8],
        ascii(";host=\""@) == seq![59u8] + ascii("host"@) + seq![61u8, 34u8],
        ascii("\""@) == seq![34u8],
{
    lemma_words();
    reveal_strlit("for=\"");
    reveal_strlit("\";by=\"");
    reveal_strlit("\";proto=");
    reveal_strlit(";host=\"");
    reveal_strlit("\"");
    lemma_ascii("for=\""@);
    lemma_ascii("\";by=\""@);
    lemma_ascii("\";proto="@);
    lemma_ascii(";host=\""@);
    lemma_ascii("\""@);
    assert(ascii("for=\""@) =~= ascii("for"@) + seq![61u8, 34u8]);
    assert(ascii("\";by=\""@) =~= seq![34u8, 59u8] + ascii("by"@) + seq![61u8, 34u8]);
    assert(ascii("\";proto="@) =~= seq![34u8, 59u8] + ascii("proto"@) + seq![61u8]);
    assert(ascii(";host=\""@) =~= seq![59u8] + ascii("host"@) + seq![61u8, 34u8]);
    assert(ascii("\""@) =~= seq![34u8]);
}

/// A parameter without blanks.
spec fn param(name: Seq<u8>, value: Seq<u8>) -> Seq<u8> {
    name + seq![61u8] + value
}

spec fn quoted(s: Seq<u8>) -> Seq<u8> {
    seq![34u8] + s + seq![34u8]
}

proof fn lemma_param(name: Seq<u8>, value: Seq<u8>)
    requires
        tight(name),
        tight(value),
        !name.contains(61u8),
        lower_all(name) == name,
    ensures
        says(param(name, value), name, value),
{
    let e = Seq::<u8>::empty();
    assert(param(name, value) =~= e + name + e + seq![61u8] + e + value + e);
    assert(blank(e));
    assert(written_as(param(name, value), e, name, e, e, value, e));
}

proof fn lemma_param_key(name: Seq<u8>, value: Seq<u8>)
    requires
        tight(name),
        tight(value),
        !name.contains(61u8),
        lower_all(name) == name,
    ensures
        has_eq(param(name, value)),
        key(param(name, value)) == name,
        val(param(name, value)) == value,
{
    lemma_param(name, value);
    lemma_says(param(name, value), name, value);
}

proof fn lemma_scheme(scheme: Scheme)
    ensures
        scheme_of(scheme.bytes_spec()) == Some(scheme),
        4 <= scheme.bytes_spec().len() <= 5,
        forall|i: int|
            0 <= i < scheme.bytes_spec().len() ==> 97 <= #[trigger] scheme.bytes_spec()[i] <= 122,
{
    reveal_strlit("http");
    reveal_strlit("https");
    lemma_ascii("http"@);
    lemma_ascii("https"@);
    assert(ascii("http"@) =~= seq!['h' as u8, 't' as u8, 't' as u8, 'p' as u8]);
    assert(ascii("https"@) =~= seq!['h' as u8, 't' as u8, 't' as u8, 'p' as u8, 's' as u8]);
    assert(lower_all(ascii("http"@)).len() != lower_all(ascii("https"@)).len());
}

/// The four parameters that are written, each a part of its own.
proof fn lemma_written_parts(n: Seq<u8>, m: Seq<u8>, s: Seq<u8>, a: Seq<u8>)
    requires
        plain(n),
        plain(m),
        plain(a),
        s.len() > 0,
        forall|i: int| 0 <= i < s.len() ==> 97 <= #[trigger] s[i] <= 122,
    ensures
        ({
            let f = param(ascii("for"@), quoted(n));
            let b = param(ascii("by"@), quoted(m));
            let p = param(ascii("proto"@), s);
            let h = param(ascii("host"@), quoted(a));
            let raw = f + seq![59u8] + (b + seq![59u8] + (p + seq![59u8] + h));
            &&& top_split(raw, 59u8) == seq![f, b, p, h]
            &&& tight(raw)
            &&& raw.len() > 0
        }),
{
    lemma_words();
    let f = param(ascii("for"@), quoted(n));
    let b = param(ascii("by"@), quoted(m));
    let p = param(ascii("proto"@), s);
    let h = param(ascii("host"@), quoted(a));
    let xf = ascii("for"@) + seq![61u8];
    let xb = ascii("by"@) + seq![61u8];
    let xh = ascii("host"@) + seq![61u8];
    assert(f =~= xf + seq![34u8] + n + seq![34u8]);
    assert(b =~= xb + seq![34u8] + m + seq![34u8]);
    assert(h =~= xh + seq![34u8] + a + seq![34u8]);
    lemma_one_part(xf, n);
    lemma_one_part(xb, m);
    lemma_one_part(xh, a);
    lemma_outside(p, 0, p.len() as int);
    let r2 = p + seq![59u8] + h;
    let r1 = b + seq![59u8] + r2;
    law_split_at_a_separator(p, h, 59u8);
    law_split_at_a_separator(b, r2, 59u8);
    law_split_at_a_separator(f, r1, 59u8);
    assert(top_split(p, 59u8) =~= seq![p]);
    assert(seq![f] + (seq![b] + (seq![p] + seq![h])) =~= seq![f, b, p, h]);
    let raw = f + seq![59u8] + r1;
    assert(raw[0] == 'f' as u8);
    assert(raw.last() == h.last());
    assert(h.last() == 34u8);
}

/// What four such parameters say.
proof fn lemma_written_params(n: Seq<u8>, m: Seq<u8>, s: Seq<u8>, a: Seq<u8>)
    requires
        plain(n),
        0 < n.len() <= 60,
        s.len() > 0,
        forall|i: int| 0 <= i < s.len() ==> 97 <= #[trigger] s[i] <= 122,
    ensures
        ({
            let f = param(ascii("for"@), quoted(n));
            let b = param(ascii("by"@), quoted(m));
            let p = param(ascii("proto"@), s);
            let h = param(ascii("host"@), quoted(a));
            let q = params_from(
                Params { node: None, proto: None, host: None, by: false },
                seq![f, b, p, h],
                0,
            );
            &&& q is Ok
            &&& q->Ok_0.node == Some(node_name(quoted(n)))
            &&& q->Ok_0.proto == Some(proto_of(s))
            &&& q->Ok_0.host == Some(quoted(a))
        }),
{
    lemma_words();
    let f = param(ascii("for"@), quoted(n));
    let b = param(ascii("by"@), quoted(m));
    let p = param(ascii("proto"@), s);
    let h = param(ascii("host"@), quoted(a));
    lemma_param_key(ascii("for"@), quoted(n));
    lemma_param_key(ascii("by"@), quoted(m));
    lemma_param_key(ascii("proto"@), s);
    lemma_param_key(ascii("host"@), quoted(a));
    let pairs = seq![f, b, p, h];
    assert(pairs[0] == f && pairs[1] == b && pairs[2] == p && pairs[3] == h);
    lemma_params(Params { node: None, proto: None, host: None, by: false }, pairs, 0);
    assert(key(pairs[0]) == ascii("for"@));
    assert(key(pairs[1]) == ascii("by"@));
    assert(key(pairs[2]) == ascii("proto"@));
    assert(key(pairs[3]) == ascii("host"@));
}

/// The element that is written for a hop reads back as that hop: the client's
/// address and port, the scheme and the host.
pub proof fn law_written_element_reads_back(
    peer: PeerIdentity,
    local: SocketAddr,
    scheme: Scheme,
    authority: AuthorityView,
)
    requires
        peer.client_port != Some(0u16),
        canonical_host(authority.host),
    ensures
        ({
            let e = element_of(forwarded_text(peer, local, scheme, authority));
            &&& e is Ok
            &&& e->Ok_0.node == (NodeName::Addr { addr: peer.client, port: peer.client_port })
            &&& e->Ok_0.proto == Some(scheme)
            &&& e->Ok_0.host is Some
            &&& unquoted(e->Ok_0.host->Some_0) == authority_text(authority)
        }),
{
    let n = node_text(peer.client, peer.client_port);
    let m = node_text(local.ip, Some(local.port));
    let s = scheme.bytes_spec();
    let a = authority_text(authority);
    lemma_scheme(scheme);
    lemma_node_text(peer.client, peer.client_port);
    lemma_node_text(local.ip, Some(local.port));
    lemma_authority_plain(authority);
    lemma_written_element(n, m, s, a);
    law_quotes_are_taken_off(a);
    law_node_text_reads_back(peer.client, peer.client_port);
}

/// What four written parameters say.
proof fn lemma_written_element(n: Seq<u8>, m: Seq<u8>, s: Seq<u8>, a: Seq<u8>)
    requires
        plain(n),
        0 < n.len() <= 60,
        plain(m),
        plain(a),
        s.len() > 0,
        forall|i: int| 0 <= i < s.len() ==> 97 <= #[trigger] s[i] <= 122,
    ensures
        ({
            let e = element_of(
                ascii("for=\""@) + n + ascii("\";by=\""@) + m + ascii("\";proto="@) + s + ascii(
                    ";host=\""@,
                ) + a + ascii("\""@),
            );
            &&& e is Ok
            &&& e->Ok_0.node == node_name(n)
            &&& e->Ok_0.proto == scheme_of(s)
            &&& e->Ok_0.host == Some(seq![34u8] + a + seq![34u8])
        }),
{
    lemma_written_text(n, m, s, a);
    lemma_written_parts(n, m, s, a);
    lemma_written_params(n, m, s, a);
    lemma_trim_id(
        param(ascii("for"@), quoted(n)) + seq![59u8] + (param(ascii("by"@), quoted(m)) + seq![59u8]
            + (param(ascii("proto"@), s) + seq![59u8] + param(ascii("host"@), quoted(a)))),
    );
    law_quotes_are_taken_off(n);
    assert(n[0] != 34);
    assert(s[0] != 34);
}

proof fn lemma_written_text(n: Seq<u8>, m: Seq<u8>, s: Seq<u8>, a: Seq<u8>)
    ensures
        ascii("for=\""@) + n + ascii("\";by=\""@) + m + ascii("\";proto="@) + s + ascii(
            ";host=\""@,
        ) + a + ascii("\""@) == param(ascii("for"@), quoted(n)) + seq![59u8] + (param(
            ascii("by"@),
            quoted(m),
        ) + seq![59u8] + (param(ascii("proto"@), s) + seq![59u8] + param(
            ascii("host"@),
            quoted(a),
        ))),
{
    lemma_words();
    lemma_literals();
    let x = ascii("for=\""@) + n + ascii("\";by=\""@) + m + ascii("\";proto="@) + s + ascii(
        ";host=\""@,
    ) + a + ascii("\""@);
    let y = param(ascii("for"@), quoted(n)) + seq![59u8] + (param(ascii("by"@), quoted(m)) + seq![
        59u8,
    ] + (param(ascii("proto"@), s) + seq![59u8] + param(ascii("host"@), quoted(a))));
    assert(x =~= y);
}

proof fn lemma_authority_plain(authority: AuthorityView)
    requires
        canonical_host(authority.host),
    ensures
        plain(authority_text(authority)),
{
    let a = authority_text(authority);
    assert forall|i: int| 0 <= i < a.len() implies #[trigger] a[i] != 34 && a[i] != 92 by {
        if i < authority.host.len() {
            assert(a[i] == authority.host[i]);
            assert(host_byte(authority.host[i]));
        } else if i > authority.host.len() {
            let d = dec_text(authority.port->Some_0 as nat);
            law_decimal_round_trip(authority.port->Some_0 as nat);
            assert(a[i] == d[i - authority.host.len() - 1]);
            assert(is_digit(d[i - authority.host.len() - 1]));
        }
    }
}

/// The element that is written for a hop: the client as `for`, this proxy as
/// `by`, the scheme and the host, with semicolons between them.
pub proof fn law_written_element(
    peer: PeerIdentity,
    local: SocketAddr,
    scheme: Scheme,
    authority: AuthorityView,
)
    ensures
        ({
            let q = seq![34u8];
            forwarded_text(peer, local, scheme, authority) == ascii("for="@) + q + node_text(
                peer.client,
                peer.client_port,
            ) + q + ascii(";by="@) + q + node_text(local.ip, Some(local.port)) + q + ascii(
                ";proto="@,
            ) + (match scheme {
                Scheme::Http => ascii("http"@),
                Scheme::Https => ascii("https"@),
            }) + ascii(";host="@) + q + authority_text(authority) + q
        }),
{
    lemma_literals();
    lemma_words();
    reveal_strlit("for=");
    reveal_strlit(";by=");
    reveal_strlit(";proto=");
    reveal_strlit(";host=");
    lemma_ascii("for="@);
    lemma_ascii(";by="@);
    lemma_ascii(";proto="@);
    lemma_ascii(";host="@);
    let q = seq![34u8];
    assert(ascii("for=\""@) =~= ascii("for="@) + q);
    assert(ascii("\";by=\""@) =~= q + ascii(";by="@) + q);
    assert(ascii("\";proto="@) =~= q + ascii(";proto="@));
    assert(ascii(";host=\""@) =~= ascii(";host="@) + q);
    let n = node_text(peer.client, peer.client_port);
    let m = node_text(local.ip, Some(local.port));
    let s = scheme.bytes_spec();
    let a = authority_text(authority);
    assert(forwarded_text(peer, local, scheme, authority) =~= ascii("for="@) + q + n + q + ascii(
        ";by="@,
    ) + q + m + q + ascii(";proto="@) + s + ascii(";host="@) + q + a + q);
}

} // verus!
