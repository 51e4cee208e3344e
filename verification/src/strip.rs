//! Which fields are not forwarded.
//!
//! Hop-by-hop fields belong to one connection, identity fields to whoever
//! wrote them, and some prefixes to this proxy. The canonical forms carry
//! none of them.
use crate::field::{trim, trim_ows};
use crate::known::KnownHeader;
use crate::section::{Field, FieldSection};
use crate::text::{
    ascii, eq_ignore_case, lower_all, split, split_on, starts_with, views,
};
use vstd::prelude::*;

verus! {

/// Whether a field belongs to one connection.
pub open spec fn hop_by_hop(k: KnownHeader) -> bool {
    match k {
        KnownHeader::Connection
        | KnownHeader::ProxyConnection
        | KnownHeader::KeepAlive
        | KnownHeader::TransferEncoding
        | KnownHeader::ContentLength
        | KnownHeader::Upgrade
        | KnownHeader::Http2Settings
        | KnownHeader::Trailer
        | KnownHeader::ProxyAuthenticate
        | KnownHeader::ProxyAuthorization => true,
        _ => false,
    }
}

/// Whether a field belongs to one connection: the framing fields, and those
/// that speak of the connection. `te` does not count: `te: trailers` is kept.
#[must_use]
pub fn is_hop_by_hop(k: KnownHeader) -> (r: bool)
    ensures
        r == hop_by_hop(k),
{
    match k {
        KnownHeader::Connection
        | KnownHeader::ProxyConnection
        | KnownHeader::KeepAlive
        | KnownHeader::TransferEncoding
        | KnownHeader::ContentLength
        | KnownHeader::Upgrade
        | KnownHeader::Http2Settings
        | KnownHeader::Trailer
        | KnownHeader::ProxyAuthenticate
        | KnownHeader::ProxyAuthorization => true,
        _ => false,
    }
}

/// Whether a field claims who the client is.
pub open spec fn identity_field(k: KnownHeader) -> bool {
    match k {
        KnownHeader::Forwarded
        | KnownHeader::XForwardedFor
        | KnownHeader::XForwardedProto
        | KnownHeader::XForwardedHost
        | KnownHeader::XRealIp => true,
        _ => false,
    }
}

/// Whether a field claims who the client is.
#[must_use]
pub fn is_identity_field(k: KnownHeader) -> (r: bool)
    ensures
        r == identity_field(k),
{
    match k {
        KnownHeader::Forwarded
        | KnownHeader::XForwardedFor
        | KnownHeader::XForwardedProto
        | KnownHeader::XForwardedHost
        | KnownHeader::XRealIp => true,
        _ => false,
    }
}

/// Whether a request field's name has a prefix that only proxies write.
pub open spec fn reserved_prefix(name: Seq<u8>) -> bool {
    ||| ascii("x-irontraffic-"@).is_prefix_of(name)
    ||| ascii("x-envoy-"@).is_prefix_of(name)
    ||| ascii("x-forwarded-"@).is_prefix_of(name)
}

/// Whether a request field's name has a prefix that only proxies write.
#[must_use]
pub fn is_reserved_prefix(name: &[u8]) -> (r: bool)
    ensures
        r == reserved_prefix(name@),
{
    starts_with(name, "x-irontraffic-".as_bytes()) || starts_with(name, "x-envoy-".as_bytes())
        || starts_with(name, "x-forwarded-".as_bytes())
}

/// Whether a response field's name has a prefix that only this proxy writes.
/// `x-envoy-` fields of a response are kept.
pub open spec fn response_reserved_prefix(name: Seq<u8>) -> bool {
    ascii("x-irontraffic-"@).is_prefix_of(name)
}

/// Whether a response field's name has a prefix that only this proxy writes.
#[must_use]
pub fn is_response_reserved_prefix(name: &[u8]) -> (r: bool)
    ensures
        r == response_reserved_prefix(name@),
{
    starts_with(name, "x-irontraffic-".as_bytes())
}

/// Whether the options of one `connection` value name this field.
pub open spec fn options_name(value: Seq<u8>, name: Seq<u8>) -> bool {
    exists|j: int|
        0 <= j < split(value, ',' as u8).len() && lower_all(
            trim(#[trigger] split(value, ',' as u8)[j]),
        ) == lower_all(name)
}

/// Whether a `connection` field names this field as its own.
pub open spec fn nominated(fields: Seq<Field>, name: Seq<u8>) -> bool {
    exists|i: int|
        0 <= i < fields.len() && (#[trigger] fields[i]).known() is Connection && options_name(
            fields[i].value,
            name,
        )
}

fn has_option(value: &[u8], name: &[u8]) -> (r: bool)
    ensures
        r == options_name(value@, name@),
{
    let parts = split_on(value, ',' as u8);
    let ghost toks = split(value@, ',' as u8);
    let mut j: usize = 0;
    while j < parts.len()
        invariant
            j <= parts@.len(),
            toks == views(parts@),
            toks == split(value@, ',' as u8),
            forall|k: int| 0 <= k < j ==> lower_all(trim(#[trigger] toks[k])) != lower_all(name@),
        decreases parts@.len() - j,
    {
        let t = trim_ows(parts[j]);
        assert(toks[j as int] == parts@[j as int]@);
        if eq_ignore_case(t, name) {
            return true;
        }
        j += 1;
    }
    false
}

fn is_nominated(fields: &FieldSection, name: &[u8]) -> (r: bool)
    ensures
        r == nominated(fields@, name@),
{
    let n: usize = fields.len();
    let mut i: usize = 0;
    while i < n
        invariant
            i <= n,
            n == fields@.len(),
            forall|k: int|
                0 <= k < i ==> !((#[trigger] fields@[k]).known() is Connection && options_name(
                    fields@[k].value,
                    name@,
                )),
        decreases n - i,
    {
        let known: KnownHeader = fields.slots()[i].known();
        if known == KnownHeader::Connection {
            if let Some(value) = fields.value_at(i) {
                if has_option(value, name) {
                    assert(fields@[i as int].known() is Connection);
                    return true;
                }
            }
        }
        i += 1;
    }
    false
}

/// Whether a request field is kept: an end-to-end field that names no client
/// and has no reserved name. `te` is kept only as `te: trailers`.
pub open spec fn kept_on_ingress(fields: Seq<Field>, f: Field) -> bool {
    &&& !hop_by_hop(f.known())
    &&& !identity_field(f.known())
    &&& !reserved_prefix(f.name)
    &&& !nominated(fields, f.name)
    &&& f.known() is Te ==> lower_all(trim(f.value)) == lower_all(ascii("trailers"@))
}

/// The fields of a request that are kept.
pub open spec fn stripped_ingress(fields: Seq<Field>) -> Seq<Field> {
    fields.filter(|f: Field| kept_on_ingress(fields, f))
}

/// Removes from a request's fields everything that is not forwarded.
pub fn strip_ingress(fields: &mut FieldSection)
    ensures
        final(fields)@ == stripped_ingress(old(fields)@),
{
    let n: usize = fields.slots().len();
    let mut keep: Vec<bool> = Vec::new();
    let mut i: usize = 0;
    while i < n
        invariant
            i <= n,
            n == fields@.len(),
            *fields == *old(fields),
            keep@.len() == i,
            forall|j: int| 0 <= j < i ==> keep@[j] == kept_on_ingress(fields@, fields@[j]),
        decreases n - i,
    {
        let known: KnownHeader = fields.slots()[i].known();
        let mut kept = !is_hop_by_hop(known) && !is_identity_field(known);
        if kept {
            if let Some(name) = fields.name_at(i) {
                kept = !is_reserved_prefix(name) && !is_nominated(fields, name);
            }
        }
        if kept && known == KnownHeader::Te {
            if let Some(value) = fields.value_at(i) {
                kept = eq_ignore_case(trim_ows(value), "trailers".as_bytes());
            }
        }
        keep.push(kept);
        i += 1;
    }
    let ghost all = fields@;
    let ghost pred = |f: Field| kept_on_ingress(all, f);
    fields.retain(&keep, Ghost(pred));
}

/// Whether a response field is kept.
pub open spec fn kept_on_response(fields: Seq<Field>, f: Field) -> bool {
    &&& !hop_by_hop(f.known())
    &&& !response_reserved_prefix(f.name)
    &&& !nominated(fields, f.name)
}

/// The fields of a response that are kept.
pub open spec fn stripped_response(fields: Seq<Field>) -> Seq<Field> {
    fields.filter(|f: Field| kept_on_response(fields, f))
}

/// Removes from a response's fields everything that is not forwarded.
pub fn strip_response(fields: &mut FieldSection)
    ensures
        final(fields)@ == stripped_response(old(fields)@),
{
    let n: usize = fields.slots().len();
    let mut keep: Vec<bool> = Vec::new();
    let mut i: usize = 0;
    while i < n
        invariant
            i <= n,
            n == fields@.len(),
            *fields == *old(fields),
            keep@.len() == i,
            forall|j: int| 0 <= j < i ==> keep@[j] == kept_on_response(fields@, fields@[j]),
        decreases n - i,
    {
        let known: KnownHeader = fields.slots()[i].known();
        let mut kept = !is_hop_by_hop(known);
        if kept {
            if let Some(name) = fields.name_at(i) {
                kept = !is_response_reserved_prefix(name) && !is_nominated(fields, name);
            }
        }
        keep.push(kept);
        i += 1;
    }
    let ghost all = fields@;
    let ghost pred = |f: Field| kept_on_response(all, f);
    fields.retain(&keep, Ghost(pred));
}

/// What is kept of a request is what a canonical request may carry.
pub proof fn law_stripped_request_is_clean(fields: Seq<Field>)
    ensures
        forall|i: int|
            0 <= i < stripped_ingress(fields).len() ==> kept_on_ingress(
                fields,
                #[trigger] stripped_ingress(fields)[i],
            ),
{
    broadcast use vstd::seq_lib::group_filter_ensures;

}

/// What is kept of a response is what a canonical response may carry.
pub proof fn law_stripped_response_is_clean(fields: Seq<Field>)
    ensures
        forall|i: int|
            0 <= i < stripped_response(fields).len() ==> kept_on_response(
                fields,
                #[trigger] stripped_response(fields)[i],
            ),
{
    broadcast use vstd::seq_lib::group_filter_ensures;

}

} // verus!
