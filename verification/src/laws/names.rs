//! The names that the rules speak of, written out.
use crate::h1::chunked::trailer_denied_spec;
use crate::known::{classify_spec, law_classified_name, law_classify_name, KnownHeader};
use crate::section::{values_of, Field};
use crate::strip::{hop_by_hop, identity_field, reserved_prefix, response_reserved_prefix};
use crate::text::ascii;
use vstd::prelude::*;

verus! {

/// Each known field has one name, and every other name is of none.
pub proof fn law_known_names(name: Seq<u8>)
    ensures
        classify_spec(name) == KnownHeader::Host <==> name == ascii("host"@),
        classify_spec(name) == KnownHeader::ContentLength <==> name == ascii("content-length"@),
        classify_spec(name) == KnownHeader::TransferEncoding <==> name == ascii("transfer-encoding"@),
        classify_spec(name) == KnownHeader::Connection <==> name == ascii("connection"@),
        classify_spec(name) == KnownHeader::ProxyConnection <==> name == ascii("proxy-connection"@),
        classify_spec(name) == KnownHeader::KeepAlive <==> name == ascii("keep-alive"@),
        classify_spec(name) == KnownHeader::Upgrade <==> name == ascii("upgrade"@),
        classify_spec(name) == KnownHeader::Http2Settings <==> name == ascii("http2-settings"@),
        classify_spec(name) == KnownHeader::Trailer <==> name == ascii("trailer"@),
        classify_spec(name) == KnownHeader::Te <==> name == ascii("te"@),
        classify_spec(name) == KnownHeader::Expect <==> name == ascii("expect"@),
        classify_spec(name) == KnownHeader::Forwarded <==> name == ascii("forwarded"@),
        classify_spec(name) == KnownHeader::XForwardedFor <==> name == ascii("x-forwarded-for"@),
        classify_spec(name) == KnownHeader::XForwardedProto <==> name == ascii("x-forwarded-proto"@),
        classify_spec(name) == KnownHeader::XForwardedHost <==> name == ascii("x-forwarded-host"@),
        classify_spec(name) == KnownHeader::XRealIp <==> name == ascii("x-real-ip"@),
        classify_spec(name) == KnownHeader::Cookie <==> name == ascii("cookie"@),
        classify_spec(name) == KnownHeader::SetCookie <==> name == ascii("set-cookie"@),
        classify_spec(name) == KnownHeader::Authorization <==> name == ascii("authorization"@),
        classify_spec(name) == KnownHeader::ProxyAuthorization <==> name == ascii("proxy-authorization"@),
        classify_spec(name) == KnownHeader::ProxyAuthenticate <==> name == ascii("proxy-authenticate"@),
        classify_spec(name) == KnownHeader::MaxForwards <==> name == ascii("max-forwards"@),
        classify_spec(name) == KnownHeader::CacheControl <==> name == ascii("cache-control"@),
        classify_spec(name) == KnownHeader::IfMatch <==> name == ascii("if-match"@),
        classify_spec(name) == KnownHeader::IfNoneMatch <==> name == ascii("if-none-match"@),
        classify_spec(name) == KnownHeader::IfModifiedSince <==> name == ascii("if-modified-since"@),
        classify_spec(name) == KnownHeader::IfUnmodifiedSince <==> name == ascii("if-unmodified-since"@),
        classify_spec(name) == KnownHeader::IfRange <==> name == ascii("if-range"@),
        classify_spec(name) == KnownHeader::Range <==> name == ascii("range"@),
{
    law_classified_name(name);
    law_classify_name(KnownHeader::Host);
    law_classify_name(KnownHeader::ContentLength);
    law_classify_name(KnownHeader::TransferEncoding);
    law_classify_name(KnownHeader::Connection);
    law_classify_name(KnownHeader::ProxyConnection);
    law_classify_name(KnownHeader::KeepAlive);
    law_classify_name(KnownHeader::Upgrade);
    law_classify_name(KnownHeader::Http2Settings);
    law_classify_name(KnownHeader::Trailer);
    law_classify_name(KnownHeader::Te);
    law_classify_name(KnownHeader::Expect);
    law_classify_name(KnownHeader::Forwarded);
    law_classify_name(KnownHeader::XForwardedFor);
    law_classify_name(KnownHeader::XForwardedProto);
    law_classify_name(KnownHeader::XForwardedHost);
    law_classify_name(KnownHeader::XRealIp);
    law_classify_name(KnownHeader::Cookie);
    law_classify_name(KnownHeader::SetCookie);
    law_classify_name(KnownHeader::Authorization);
    law_classify_name(KnownHeader::ProxyAuthorization);
    law_classify_name(KnownHeader::ProxyAuthenticate);
    law_classify_name(KnownHeader::MaxForwards);
    law_classify_name(KnownHeader::CacheControl);
    law_classify_name(KnownHeader::IfMatch);
    law_classify_name(KnownHeader::IfNoneMatch);
    law_classify_name(KnownHeader::IfModifiedSince);
    law_classify_name(KnownHeader::IfUnmodifiedSince);
    law_classify_name(KnownHeader::IfRange);
    law_classify_name(KnownHeader::Range);
}

/// The names of the fields that belong to one connection.
pub open spec fn connection_name(name: Seq<u8>) -> bool {
    ||| name == ascii("connection"@)
    ||| name == ascii("proxy-connection"@)
    ||| name == ascii("keep-alive"@)
    ||| name == ascii("transfer-encoding"@)
    ||| name == ascii("content-length"@)
    ||| name == ascii("upgrade"@)
    ||| name == ascii("http2-settings"@)
    ||| name == ascii("trailer"@)
    ||| name == ascii("proxy-authenticate"@)
    ||| name == ascii("proxy-authorization"@)
}

/// The names of the fields that claim who the client is.
pub open spec fn client_name(name: Seq<u8>) -> bool {
    ||| name == ascii("forwarded"@)
    ||| name == ascii("x-forwarded-for"@)
    ||| name == ascii("x-forwarded-proto"@)
    ||| name == ascii("x-forwarded-host"@)
    ||| name == ascii("x-real-ip"@)
}

/// The names that no trailer may have.
pub open spec fn header_only_name(name: Seq<u8>) -> bool {
    ||| name == ascii("transfer-encoding"@)
    ||| name == ascii("content-length"@)
    ||| name == ascii("host"@)
    ||| name == ascii("expect"@)
    ||| name == ascii("max-forwards"@)
    ||| name == ascii("cache-control"@)
    ||| name == ascii("if-match"@)
    ||| name == ascii("if-none-match"@)
    ||| name == ascii("if-modified-since"@)
    ||| name == ascii("if-unmodified-since"@)
    ||| name == ascii("if-range"@)
    ||| name == ascii("range"@)
    ||| name == ascii("te"@)
    ||| name == ascii("authorization"@)
    ||| name == ascii("proxy-authorization"@)
    ||| name == ascii("cookie"@)
    ||| name == ascii("set-cookie"@)
    ||| name == ascii("trailer"@)
}

/// Which names belong to one connection, claim who the client is, and may not
/// stand in trailers.
pub proof fn law_field_kinds(name: Seq<u8>)
    ensures
        hop_by_hop(classify_spec(name)) <==> connection_name(name),
        identity_field(classify_spec(name)) <==> client_name(name),
        trailer_denied_spec(classify_spec(name)) <==> header_only_name(name),
{
    law_known_names(name);
}

/// Which names a proxy alone writes.
pub proof fn law_reserved_prefixes(rest: Seq<u8>, name: Seq<u8>)
    ensures
        reserved_prefix(ascii("x-irontraffic-"@) + rest),
        reserved_prefix(ascii("x-envoy-"@) + rest),
        reserved_prefix(ascii("x-forwarded-"@) + rest),
        response_reserved_prefix(ascii("x-irontraffic-"@) + rest),
        !(ascii("x-irontraffic-"@).is_prefix_of(name)) ==> !response_reserved_prefix(name),
        !(ascii("x-irontraffic-"@).is_prefix_of(name)) && !(ascii("x-envoy-"@).is_prefix_of(name))
            && !(ascii("x-forwarded-"@).is_prefix_of(name)) ==> !reserved_prefix(name),
{
    assert(ascii("x-irontraffic-"@).is_prefix_of(ascii("x-irontraffic-"@) + rest));
    assert(ascii("x-envoy-"@).is_prefix_of(ascii("x-envoy-"@) + rest));
    assert(ascii("x-forwarded-"@).is_prefix_of(ascii("x-forwarded-"@) + rest));
}

// ---- the fields of one name ----

/// Whether no field has this name.
pub open spec fn none_named(fields: Seq<Field>, name: Seq<u8>) -> bool {
    forall|i: int| 0 <= i < fields.len() ==> (#[trigger] fields[i]).name != name
}

/// Whether exactly one field has this name, and this value.
pub open spec fn one_named(fields: Seq<Field>, name: Seq<u8>, value: Seq<u8>) -> bool {
    exists|i: int| #[trigger] only_at(fields, i, name) && fields[i].value == value
}

/// Whether the field at `i`, and no other, has this name.
pub open spec fn only_at(fields: Seq<Field>, i: int, name: Seq<u8>) -> bool {
    &&& 0 <= i < fields.len()
    &&& fields[i].name == name
    &&& forall|j: int| 0 <= j < fields.len() && j != i ==> (#[trigger] fields[j]).name != name
}

/// The values of a known field are those of the fields of its name.
pub proof fn law_values_pushed(fields: Seq<Field>, f: Field, k: KnownHeader)
    ensures
        values_of(fields.push(f), k) == if classify_spec(f.name) == k {
            values_of(fields, k).push(f.value)
        } else {
            values_of(fields, k)
        },
        values_of(Seq::empty(), k) == Seq::<Seq<u8>>::empty(),
{
    assert(fields.push(f).drop_last() =~= fields);
}

/// Without a field of the name there are no values.
pub proof fn law_none_named(fields: Seq<Field>, k: KnownHeader)
    requires
        !(k is Unknown),
        none_named(fields, k.name_spec()),
    ensures
        values_of(fields, k).len() == 0,
    decreases fields.len(),
{
    if fields.len() > 0 {
        let d = fields.drop_last();
        assert forall|i: int| 0 <= i < d.len() implies (#[trigger] d[i]).name
            != k.name_spec() by {
            assert(fields[i].name != k.name_spec());
        }
        law_none_named(d, k);
        law_classified_name(fields.last().name);
        assert(fields[fields.len() - 1].name != k.name_spec());
    }
}

/// With one field of the name there is its value.
pub proof fn law_one_named(fields: Seq<Field>, k: KnownHeader, value: Seq<u8>)
    requires
        !(k is Unknown),
        one_named(fields, k.name_spec(), value),
    ensures
        values_of(fields, k) == seq![value],
    decreases fields.len(),
{
    let name = k.name_spec();
    let i = choose|i: int| #[trigger] only_at(fields, i, name) && fields[i].value == value;
    let d = fields.drop_last();
    if i == fields.len() - 1 {
        assert forall|j: int| 0 <= j < d.len() implies (#[trigger] d[j]).name != name by {
            assert(fields[j].name != name);
        }
        law_none_named(d, k);
        law_classify_name(k);
        assert(values_of(fields, k) =~= seq![value]);
    } else {
        assert(fields[fields.len() - 1].name != name);
        assert forall|j: int| 0 <= j < d.len() && j != i implies (#[trigger] d[j]).name
            != name by {
            assert(fields[j].name != name);
        }
        assert(only_at(d, i, name));
        law_one_named(d, k, value);
        law_classified_name(fields.last().name);
    }
}

/// Two fields of the name give two values.
pub proof fn law_two_named(fields: Seq<Field>, k: KnownHeader, i: int, j: int)
    requires
        !(k is Unknown),
        0 <= i < j < fields.len(),
        fields[i].name == k.name_spec(),
        fields[j].name == k.name_spec(),
    ensures
        values_of(fields, k).len() > 1,
    decreases fields.len(),
{
    law_classify_name(k);
    let d = fields.drop_last();
    if j < fields.len() - 1 {
        law_two_named(d, k, i, j);
    } else {
        lemma_some_named(d, k, i);
    }
}

pub proof fn lemma_some_named(fields: Seq<Field>, k: KnownHeader, i: int)
    requires
        !(k is Unknown),
        0 <= i < fields.len(),
        fields[i].name == k.name_spec(),
    ensures
        values_of(fields, k).len() > 0,
    decreases fields.len(),
{
    law_classify_name(k);
    if i < fields.len() - 1 {
        lemma_some_named(fields.drop_last(), k, i);
    }
}

} // verus!
