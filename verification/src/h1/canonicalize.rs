//! From a parsed head to its canonical form.
//!
//! The order of the steps matters: framing, the forwarding chain and `Expect`
//! read fields that the strip removes.
use crate::authority::{
    parse_authority, reconcile_authority, reconciled, Authority, AuthorityView,
};
use crate::canonical::{
    query_view, request_fields_ok, response_fields_ok, CanonicalRequest, CanonicalRequestBuilder,
    CanonicalResponse,
};
use crate::error::RejectReason;
use crate::expect::{check_expect, expect_action, ExpectAction};
use crate::ext::{content, has_room};
use crate::field::{canonical_name, UnderscorePolicy};
use crate::forwarded::{chain_of_section, section_left, ForwardedChain};
use crate::framing::{
    content_length, parse_content_length, request_framing, resolve_request_framing, OtherCodings,
    RequestFraming,
};
use crate::h1::parser::{
    opt_view, raw_name, raw_value, span_or_empty, HeadView, RawField, RawHead, RawResponseHead,
    ResponseHeadView,
};
use crate::known::KnownHeader;
use crate::limits::{ClampedLimits, Limits};
use crate::net::SocketAddr;
use crate::path::{
    classify_target, find_scheme_mark, parse_path, scheme_mark, target_form, NormalizedPath,
    PathPolicy, TargetForm,
};
use crate::peer::{nearest, resolve_identity, walk, PeerIdentity, TrustPolicy};
use crate::response::{resolve_response_framing, response_framing, ResponseFraming};
use crate::scalar::{method_error, named_method, Method, Scheme, WireVersion};
use crate::section::{
    section_cost, values_of, without, Field, FieldSection, FieldSectionBuilder, SectionState,
};
use crate::strip::{
    law_stripped_request_is_clean, law_stripped_response_is_clean, strip_ingress, strip_response,
    stripped_ingress, stripped_response,
};
use crate::text::{ascii, eq_ignore_case, find_seq, lower_all};
use bytes::BytesMut;
use vstd::prelude::*;
use vstd::slice::slice_subrange;

verus! {

/// What the connection and the configuration say, and the head does not.
#[derive(Debug)]
pub struct H1Context<'c> {
    /// Limits for this listener.
    pub limits: ClampedLimits,
    /// How paths are normalized.
    pub path_policy: PathPolicy,
    /// What to do about transfer codings other than `chunked`.
    pub codings: OtherCodings,
    /// What to do about `_` in names.
    pub underscores: UnderscorePolicy,
    /// The scheme of this listener.
    pub scheme: Scheme,
    /// The other end of the connection.
    pub socket_peer: SocketAddr,
    /// What a PROXY protocol header declared.
    pub proxy_proto: Option<SocketAddr>,
    /// Whose claims about the client are believed.
    pub trust: &'c TrustPolicy,
    /// The authority of an HTTP/1.0 request that has no `Host`.
    pub default_authority: Option<&'c Authority>,
    /// Whether this listener is a forward proxy.
    pub forward_proxy: bool,
    /// Whether the request body is buffered.
    pub will_buffer_body: bool,
}

impl<'c> Clone for H1Context<'c> {
    fn clone(&self) -> (r: Self)
        ensures
            r == *self,
    {
        H1Context {
            limits: self.limits,
            path_policy: self.path_policy,
            codings: self.codings,
            underscores: self.underscores,
            scheme: self.scheme,
            socket_peer: self.socket_peer,
            proxy_proto: self.proxy_proto,
            trust: self.trust,
            default_authority: self.default_authority,
            forward_proxy: self.forward_proxy,
            will_buffer_body: self.will_buffer_body,
        }
    }
}

/// What a [`CanonicalRequest`] says, but for its method.
pub struct RequestView {
    pub scheme: Scheme,
    pub authority: AuthorityView,
    pub path: Seq<u8>,
    pub query: Option<Seq<u8>>,
    pub headers: Seq<Field>,
    pub framing: RequestFraming,
    pub version: WireVersion,
    pub peer: PeerIdentity,
}

/// What a canonical request says, but for its method.
pub open spec fn request_view(r: CanonicalRequest) -> RequestView {
    RequestView {
        scheme: r.scheme,
        authority: r.authority@,
        path: r.path@,
        query: query_view(r.query),
        headers: r.headers@,
        framing: r.framing,
        version: r.version,
        peer: r.peer,
    }
}

/// Room enough in the arena for the fields of a head of so many bytes, and
/// for everything else that is built there one after the other.
pub open spec fn arena_room(head_len: int) -> int {
    2 * head_len + 2_097_152
}

/// The field lines from `i` on, added to a section.
pub open spec fn compact_from(
    st: SectionState,
    fields: Seq<RawField>,
    i: int,
    buf: Seq<u8>,
    policy: UnderscorePolicy,
    version: WireVersion,
) -> Result<SectionState, RejectReason>
    decreases fields.len() - i,
{
    if i >= fields.len() {
        Ok(st)
    } else {
        match (raw_name(fields, i, buf), raw_value(fields, i, buf)) {
            (Some(name), Some(value)) => match st.add_raw_error(name, policy, value, version) {
                Some(e) => Err(e),
                None => compact_from(
                    st.added_raw(name, policy, value, version),
                    fields,
                    i + 1,
                    buf,
                    policy,
                    version,
                ),
            },
            _ => Err(RejectReason::FieldNameInvalidByte),
        }
    }
}

/// The names and values of the field lines from `i` on, up to the first line
/// that a section refuses.
pub open spec fn taken_from(
    st: SectionState,
    fields: Seq<RawField>,
    i: int,
    buf: Seq<u8>,
    policy: UnderscorePolicy,
    version: WireVersion,
) -> Seq<u8>
    decreases fields.len() - i,
{
    if i >= fields.len() {
        Seq::empty()
    } else {
        match (raw_name(fields, i, buf), raw_value(fields, i, buf)) {
            (Some(name), Some(value)) => match st.add_raw_error(name, policy, value, version) {
                Some(_) => Seq::empty(),
                None => canonical_name(name) + value + taken_from(
                    st.added_raw(name, policy, value, version),
                    fields,
                    i + 1,
                    buf,
                    policy,
                    version,
                ),
            },
            _ => Seq::empty(),
        }
    }
}

/// What making a section of a head leaves behind in the arena: nothing, unless
/// a field line is refused. The fields before it then stay there.
pub open spec fn left_behind(
    fields: Seq<RawField>,
    buf: Seq<u8>,
    policy: UnderscorePolicy,
    version: WireVersion,
    limits: Limits,
) -> Seq<u8> {
    match compacted(fields, buf, policy, version, limits) {
        Ok(_) => Seq::empty(),
        Err(_) => taken_from(SectionState::fresh(limits), fields, 0, buf, policy, version),
    }
}

/// The fields of a head as a section.
pub open spec fn compacted(
    fields: Seq<RawField>,
    buf: Seq<u8>,
    policy: UnderscorePolicy,
    version: WireVersion,
    limits: Limits,
) -> Result<Seq<Field>, RejectReason> {
    match compact_from(SectionState::fresh(limits), fields, 0, buf, policy, version) {
        Err(e) => Err(e),
        Ok(st) => Ok(st.fields),
    }
}

/// The authority of a target, which an explicit `Host` must agree with.
pub open spec fn target_authority(
    target: Seq<u8>,
    host: Option<Seq<u8>>,
    scheme: Scheme,
    max_bytes: u32,
) -> Result<AuthorityView, RejectReason> {
    match parse_authority(target, scheme, max_bytes) {
        Err(e) => Err(e),
        Ok(a) => match host {
            None => Ok(a),
            Some(h) => match parse_authority(h, scheme, max_bytes) {
                Err(e) => Err(e),
                Ok(b) => if a == b {
                    Ok(a)
                } else {
                    Err(RejectReason::AuthorityMismatch)
                },
            },
        },
    }
}

fn resolve_target_authority(
    target: &[u8],
    host_field: Option<&[u8]>,
    scheme: Scheme,
    limits: &ClampedLimits,
    arena: &mut BytesMut,
) -> (r: Result<Authority, RejectReason>)
    requires
        has_room(content(*old(arena)).len() as int, limits@.max_authority_bytes as int),
    ensures
        content(*final(arena)) == content(*old(arena)),
        match r {
            Ok(a) => target_authority(
                target@,
                opt_view(host_field),
                scheme,
                limits@.max_authority_bytes,
            ) == Ok::<AuthorityView, RejectReason>(a@),
            Err(e) => target_authority(
                target@,
                opt_view(host_field),
                scheme,
                limits@.max_authority_bytes,
            ) == Err::<AuthorityView, RejectReason>(e),
        },
{
    let from_target = Authority::parse_into(target, scheme, limits, arena)?;
    if let Some(host) = host_field {
        let from_host = Authority::parse_into(host, scheme, limits, arena)?;
        if from_host != from_target {
            return Err(RejectReason::AuthorityMismatch);
        }
    }
    Ok(from_target)
}

/// The first `/`, `?` or `#` at or after `i`, or the length of `s`.
pub open spec fn authority_end(s: Seq<u8>, i: int) -> int
    decreases s.len() - i,
{
    if i >= s.len() {
        s.len() as int
    } else if s[i] == '/' as u8 || s[i] == '?' as u8 || s[i] == '#' as u8 {
        i
    } else {
        authority_end(s, i + 1)
    }
}

/// The authority and the path of an absolute target. The scheme is `http` or
/// `https` in any case; a target with nothing behind its authority has the
/// path `/`.
pub open spec fn absolute_parts(target: Seq<u8>) -> Result<(Seq<u8>, Seq<u8>), RejectReason> {
    match find_seq(target, scheme_mark(), 0) {
        None => Err(RejectReason::TargetFormInvalid),
        Some(at) => {
            let scheme = lower_all(target.take(at));
            let rest = target.skip(at + 3);
            let end = authority_end(rest, 0);
            if scheme != lower_all(ascii("http"@)) && scheme != lower_all(ascii("https"@)) {
                Err(RejectReason::TargetFormInvalid)
            } else if end == rest.len() {
                Ok((rest, seq!['/' as u8]))
            } else {
                Ok((rest.take(end), rest.skip(end)))
            }
        },
    }
}

fn split_absolute_target<'a>(raw: &'a [u8]) -> (r: Result<(&'a [u8], &'a [u8]), RejectReason>)
    ensures
        match r {
            Ok((a, p)) => {
                &&& absolute_parts(raw@) == Ok::<(Seq<u8>, Seq<u8>), RejectReason>((a@, p@))
                &&& p@.len() <= raw@.len()
            },
            Err(e) => absolute_parts(raw@) == Err::<(Seq<u8>, Seq<u8>), RejectReason>(e),
        },
{
    let at: usize = match find_scheme_mark(raw) {
        Some(i) => i,
        None => {
            return Err(RejectReason::TargetFormInvalid);
        },
    };
    let scheme = slice_subrange(raw, 0, at);
    if !eq_ignore_case(scheme, "http".as_bytes()) && !eq_ignore_case(scheme, "https".as_bytes()) {
        return Err(RejectReason::TargetFormInvalid);
    }
    assert(raw@.len() == raw.len());
    let rest = slice_subrange(raw, at + 3, raw.len());
    assert(rest@ =~= raw@.skip(at + 3));
    let mut end: usize = 0;
    while end < rest.len() && rest[end] != '/' as u8 && rest[end] != '?' as u8 && rest[end]
        != '#' as u8
        invariant
            end <= rest@.len(),
            authority_end(rest@, 0) == authority_end(rest@, end as int),
        decreases rest@.len() - end,
    {
        end += 1;
    }
    let authority = slice_subrange(rest, 0, end);
    if end == rest.len() {
        proof {
            crate::text::lemma_find_seq(raw@, scheme_mark(), 0);
            let w = raw@.subrange(at as int, at + 3);
            assert(w[1] == raw@[at + 1]);
            assert(raw@.subrange(at + 1, at + 2) =~= seq!['/' as u8]);
            assert(authority@ =~= rest@);
        }
        Ok((authority, slice_subrange(raw, at + 1, at + 2)))
    } else {
        let path = slice_subrange(rest, end, rest.len());
        assert(path@ =~= rest@.skip(end as int));
        Ok((authority, path))
    }
}

/// The `Host` of a request: its field, or, on HTTP/1.0, the default.
pub open spec fn host_of(fields: Seq<Field>, default: Option<Seq<u8>>, version: WireVersion) -> Option<
    Seq<u8>,
> {
    let hosts = values_of(fields, KnownHeader::Host);
    if hosts.len() > 0 {
        Some(hosts[0])
    } else if version is Http10 {
        default
    } else {
        None
    }
}

/// The value of the `Host` field, if there is one.
pub open spec fn host_value(fields: Seq<Field>) -> Option<Seq<u8>> {
    let hosts = values_of(fields, KnownHeader::Host);
    if hosts.len() > 0 {
        Some(hosts[0])
    } else {
        None
    }
}

fn host_field<'a>(fields: &'a FieldSection) -> (r: Result<Option<&'a [u8]>, RejectReason>)
    ensures
        match r {
            Ok(h) => values_of(fields@, KnownHeader::Host).len() <= 1 && opt_view(h) == host_value(
                fields@,
            ),
            Err(e) => values_of(fields@, KnownHeader::Host).len() > 1 && e
                == RejectReason::HostDuplicate,
        },
{
    match fields.get_unique_known(KnownHeader::Host) {
        Ok(h) => Ok(h),
        Err(_) => Err(RejectReason::HostDuplicate),
    }
}

/// The path, the query and the authority of a request.
pub open spec fn target_parts(
    method: Method,
    target: Seq<u8>,
    version: WireVersion,
    fields: Seq<Field>,
    ctx: H1Context,
) -> Result<(TargetForm, Seq<u8>, Option<Seq<u8>>, AuthorityView), RejectReason> {
    let limits = ctx.limits@;
    let root = seq!['/' as u8];
    let default = match ctx.default_authority {
        Some(d) => Some(d@.host),
        None => None,
    };
    match target_form(target, method) {
        Err(e) => Err(e),
        Ok(TargetForm::Origin) => match parse_path(
            target,
            ctx.path_policy,
            limits.max_path_bytes,
        ) {
            Err(e) => Err(e),
            Ok((p, q)) => match reconciled(
                host_of(fields, default, version),
                None,
                ctx.scheme,
                version,
                limits.max_authority_bytes,
            ) {
                Err(e) => Err(
                    if host_of(fields, default, version) is None {
                        RejectReason::HostMissing
                    } else {
                        e
                    },
                ),
                Ok(a) => Ok((TargetForm::Origin, p, q, a)),
            },
        },
        Ok(TargetForm::Asterisk) => match reconciled(
            host_of(fields, default, version),
            None,
            ctx.scheme,
            version,
            limits.max_authority_bytes,
        ) {
            Err(e) => Err(
                if host_of(fields, default, version) is None {
                    RejectReason::HostMissing
                } else {
                    e
                },
            ),
            Ok(a) => Ok((TargetForm::Asterisk, root, None, a)),
        },
        Ok(TargetForm::Authority) => if target.len() > 0 && target[0] == '/' as u8 {
            Err(RejectReason::TargetFormInvalid)
        } else {
            match target_authority(
                target,
                host_value(fields),
                ctx.scheme,
                limits.max_authority_bytes,
            ) {
                Err(e) => Err(e),
                Ok(a) => Ok((TargetForm::Authority, root, None, a)),
            }
        },
        Ok(TargetForm::Absolute) => if !ctx.forward_proxy {
            Err(RejectReason::TargetFormInvalid)
        } else {
            match absolute_parts(target) {
                Err(e) => Err(e),
                Ok((authority, rest)) => match parse_path(
                    rest,
                    ctx.path_policy,
                    limits.max_path_bytes,
                ) {
                    Err(e) => Err(e),
                    Ok((p, q)) => match target_authority(
                        authority,
                        host_value(fields),
                        ctx.scheme,
                        limits.max_authority_bytes,
                    ) {
                        Err(e) => Err(e),
                        Ok(a) => Ok((TargetForm::Absolute, p, q, a)),
                    },
                },
            }
        },
    }
}

/// The canonical form of a request with these fields.
pub open spec fn request_of(
    method: Method,
    target: Seq<u8>,
    version: WireVersion,
    fields: Seq<Field>,
    ctx: H1Context,
) -> Result<(RequestView, ExpectAction, TargetForm), RejectReason> {
    if values_of(fields, KnownHeader::Host).len() > 1 {
        Err(RejectReason::HostDuplicate)
    } else {
        match target_parts(method, target, version, fields, ctx) {
            Err(e) => Err(e),
            Ok((form, path, query, authority)) => match request_framing(
                method,
                version,
                fields,
                ctx.codings,
            ) {
                Err(e) => Err(e),
                Ok(framing) => match chain_of_section(fields, ctx.limits@) {
                    Err(e) => Err(e),
                    Ok(chain) => match expect_action(fields, ctx.will_buffer_body) {
                        Err(e) => Err(e),
                        Ok(action) => if method is Connect && !(framing is Empty) {
                            Err(RejectReason::BodyNotAllowedForMethod)
                        } else {
                            Ok((
                                RequestView {
                                    scheme: ctx.scheme,
                                    authority,
                                    path,
                                    query,
                                    headers: stripped_ingress(
                                        if action is AnswerLocally {
                                            without(fields, KnownHeader::Expect)
                                        } else {
                                            fields
                                        },
                                    ),
                                    framing,
                                    version,
                                    peer: walk(
                                        *ctx.trust,
                                        chain.elements,
                                        chain.elements.len() as int,
                                        nearest(ctx.socket_peer, ctx.proxy_proto, *ctx.trust),
                                    ),
                                },
                                action,
                                form,
                            ))
                        },
                    },
                },
            },
        }
    }
}

/// The canonical form of a request head, for the method it names.
pub open spec fn canonical_request(
    method: Method,
    head: HeadView,
    buf: Seq<u8>,
    ctx: H1Context,
) -> Result<(RequestView, ExpectAction, TargetForm), RejectReason> {
    match compacted(head.fields, buf, ctx.underscores, head.version, ctx.limits@) {
        Err(e) => Err(e),
        Ok(fields) => request_of(
            method,
            span_or_empty(head.target, buf),
            head.version,
            fields,
            ctx,
        ),
    }
}

/// What making a request of a head leaves behind in the arena: nothing, unless
/// a field line or the forwarding chain is refused.
pub open spec fn request_left(
    method: Method,
    head: HeadView,
    buf: Seq<u8>,
    ctx: H1Context,
) -> Seq<u8> {
    match compacted(head.fields, buf, ctx.underscores, head.version, ctx.limits@) {
        Err(_) => left_behind(head.fields, buf, ctx.underscores, head.version, ctx.limits@),
        Ok(fields) => if values_of(fields, KnownHeader::Host).len() > 1 || target_parts(
            method,
            span_or_empty(head.target, buf),
            head.version,
            fields,
            ctx,
        ) is Err || request_framing(method, head.version, fields, ctx.codings) is Err {
            Seq::empty()
        } else {
            section_left(fields, ctx.limits@)
        },
    }
}

/// Whether `m` is the method that these bytes name.
pub open spec fn names_method(raw: Seq<u8>, m: Method) -> bool {
    m.bytes_spec() == raw && match named_method(raw) {
        Some(n) => m == n,
        None => m is Extension,
    }
}

/// Compacts the field lines of a head into a section.
fn compact(
    lines: &[RawField],
    buf: &[u8],
    version: WireVersion,
    ctx: &H1Context<'_>,
    arena: &mut BytesMut,
) -> (r: Result<FieldSection, RejectReason>)
    requires
        has_room(content(*old(arena)).len() as int, arena_room(buf@.len() as int)),
    ensures
        content(*final(arena)) == content(*old(arena)) + left_behind(
            lines@,
            buf@,
            ctx.underscores,
            version,
            ctx.limits@,
        ),
        match r {
            Ok(f) => compacted(lines@, buf@, ctx.underscores, version, ctx.limits@) == Ok::<
                Seq<Field>,
                RejectReason,
            >(f@),
            Err(e) => compacted(lines@, buf@, ctx.underscores, version, ctx.limits@) == Err::<
                Seq<Field>,
                RejectReason,
            >(e),
        },
{
    let ghost a0 = content(*arena);
    let mut builder = FieldSectionBuilder::new(arena, &ctx.limits);
    let ghost whole = compact_from(
        builder.state(a0),
        lines@,
        0,
        buf@,
        ctx.underscores,
        version,
    );
    let ghost taken = taken_from(
        builder.state(a0),
        lines@,
        0,
        buf@,
        ctx.underscores,
        version,
    );
    let mut i: usize = 0;
    assert(a0 + taken == content(*arena) + taken);
    while i < lines.len()
        invariant
            i <= lines@.len(),
            builder.wf(content(*arena)),
            builder.base_spec() == a0.len(),
            taken == taken_from(
                SectionState::fresh(ctx.limits@),
                lines@,
                0,
                buf@,
                ctx.underscores,
                version,
            ),
            a0 + taken == content(*arena) + taken_from(
                builder.state(content(*arena)),
                lines@,
                i as int,
                buf@,
                ctx.underscores,
                version,
            ),
            a0 == content(*old(arena)),
            a0.is_prefix_of(content(*arena)),
            content(*arena).len() <= a0.len() + section_cost(
                builder.state(content(*arena)).fields,
            ),
            has_room(a0.len() as int, arena_room(buf@.len() as int)),
            compacted(lines@, buf@, ctx.underscores, version, ctx.limits@) == (match whole {
                Err(e) => Err::<Seq<Field>, RejectReason>(e),
                Ok(st) => Ok(st.fields),
            }),
            whole == compact_from(
                builder.state(content(*arena)),
                lines@,
                i as int,
                buf@,
                ctx.underscores,
                version,
            ),
        decreases lines@.len() - i,
    {
        let (name, value) = match (lines[i].name.of(buf), lines[i].value.of(buf)) {
            (Some(name), Some(value)) => (name, value),
            _ => {
                assert(content(*arena) =~= a0 + taken);
                return Err(RejectReason::FieldNameInvalidByte);
            },
        };
        let ghost held = content(*arena);
        let ghost before = builder.state(held);
        proof {
            builder.lemma_base(held);
            if before.add_raw_error(name@, ctx.underscores, value@, version) is Some {
                assert(held =~= a0 + taken);
            }
        }
        builder.push_normalized(arena, name, ctx.underscores, value, version)?;
        proof {
            let state = builder.state(content(*arena));
            assert(state.fields.drop_last() =~= before.fields);
            let rest = taken_from(state, lines@, i + 1, buf@, ctx.underscores, version);
            assert(held + (canonical_name(name@) + value@ + rest) =~= content(*arena) + rest);
        }
        i += 1;
    }
    let fields = builder.finish(arena);
    assert(content(*arena) =~= a0 + Seq::<u8>::empty());
    Ok(fields)
}

/// Resolves the path, the query and the authority of a request.
fn resolve_target(
    method: &Method,
    target: &[u8],
    version: WireVersion,
    fields: &FieldSection,
    ctx: &H1Context<'_>,
    arena: &mut BytesMut,
) -> (r: Result<
    (TargetForm, NormalizedPath, Option<crate::path::RawQuery>, Authority),
    RejectReason,
>)
    requires
        has_room(content(*old(arena)).len() as int, arena_room(target@.len() as int)),
        values_of(fields@, KnownHeader::Host).len() <= 1,
    ensures
        content(*final(arena)) == content(*old(arena)),
        match r {
            Ok((form, p, q, a)) => target_parts(*method, target@, version, fields@, *ctx) == Ok::<
                (TargetForm, Seq<u8>, Option<Seq<u8>>, AuthorityView),
                RejectReason,
            >((form, p@, query_view(q), a@)),
            Err(e) => target_parts(*method, target@, version, fields@, *ctx) == Err::<
                (TargetForm, Seq<u8>, Option<Seq<u8>>, AuthorityView),
                RejectReason,
            >(e),
        },
{
    let _l = ctx.limits.get();
    let form = classify_target(target, method)?;
    match form {
        TargetForm::Origin => {
            let (p, q) = NormalizedPath::parse_into(
                target,
                &ctx.path_policy,
                &ctx.limits,
                arena,
            )?;
            let a = resolve_host(version, fields, ctx, arena)?;
            Ok((form, p, q, a))
        },
        TargetForm::Asterisk => {
            let a = resolve_host(version, fields, ctx, arena)?;
            Ok((form, NormalizedPath::root(), None, a))
        },
        TargetForm::Authority => {
            if target.len() > 0 && target[0] == '/' as u8 {
                return Err(RejectReason::TargetFormInvalid);
            }
            let host = host_field(fields)?;
            let a = resolve_target_authority(target, host, ctx.scheme, &ctx.limits, arena)?;
            Ok((form, NormalizedPath::root(), None, a))
        },
        TargetForm::Absolute => {
            if !ctx.forward_proxy {
                return Err(RejectReason::TargetFormInvalid);
            }
            let (authority, rest) = split_absolute_target(target)?;
            let (p, q) = NormalizedPath::parse_into(rest, &ctx.path_policy, &ctx.limits, arena)?;
            let host = host_field(fields)?;
            let a = resolve_target_authority(authority, host, ctx.scheme, &ctx.limits, arena)?;
            Ok((form, p, q, a))
        },
    }
}

/// The authority that the `Host` of a request names.
fn resolve_host(
    version: WireVersion,
    fields: &FieldSection,
    ctx: &H1Context<'_>,
    arena: &mut BytesMut,
) -> (r: Result<Authority, RejectReason>)
    requires
        has_room(content(*old(arena)).len() as int, ctx.limits@.max_authority_bytes as int),
        values_of(fields@, KnownHeader::Host).len() <= 1,
    ensures
        content(*final(arena)) == content(*old(arena)),
        ({
            let default = match ctx.default_authority {
                Some(d) => Some(d@.host),
                None => None,
            };
            let host = host_of(fields@, default, version);
            let all = reconciled(
                host,
                None,
                ctx.scheme,
                version,
                ctx.limits@.max_authority_bytes,
            );
            match r {
                Ok(a) => host is Some && all == Ok::<AuthorityView, RejectReason>(a@),
                Err(e) => if host is None {
                    e == RejectReason::HostMissing
                } else {
                    all == Err::<AuthorityView, RejectReason>(e)
                },
            }
        }),
{
    let host: &[u8] = match host_field(fields)? {
        Some(h) => h,
        None => match (version, ctx.default_authority) {
            (WireVersion::Http10, Some(d)) => d.host(),
            _ => {
                return Err(RejectReason::HostMissing);
            },
        },
    };
    reconcile_authority(Some(host), None, ctx.scheme, version, &ctx.limits, arena)
}

/// Turns a parsed request head into its canonical form. The method it names
/// is told apart first, then the fields are compacted into the arena; the
/// read buffer is not needed afterwards.
///
/// `arena` holds afterwards what it held before, unless a field line or the
/// forwarding chain is refused: what was read up to there then stays behind.
pub fn canonicalize_request(head: &RawHead<'_>, ctx: &H1Context<'_>, arena: &mut BytesMut) -> (r:
    Result<(CanonicalRequest, ExpectAction, TargetForm), RejectReason>)
    requires
        has_room(content(*old(arena)).len() as int, arena_room(head.buf_spec().len() as int)),
    ensures
        method_error(
            span_or_empty(head@.method, head.buf_spec()),
            ctx.limits@.max_method_bytes,
        ) is Some ==> content(*final(arena)) == content(*old(arena)),
        method_error(
            span_or_empty(head@.method, head.buf_spec()),
            ctx.limits@.max_method_bytes,
        ) is None ==> forall|m: Method| #[trigger]
            names_method(span_or_empty(head@.method, head.buf_spec()), m) ==> content(*final(arena))
                == content(*old(arena)) + request_left(m, head@, head.buf_spec(), *ctx),
        r is Ok ==> content(*final(arena)) == content(*old(arena)),
        ({
            let raw = span_or_empty(head@.method, head.buf_spec());
            let max = ctx.limits@.max_method_bytes;
            match r {
                Ok((q, action, form)) => {
                    &&& method_error(raw, max) is None
                    &&& names_method(raw, q.method)
                    &&& canonical_request(q.method, head@, head.buf_spec(), *ctx) == Ok::<
                        (RequestView, ExpectAction, TargetForm),
                        RejectReason,
                    >((request_view(q), action, form))
                    &&& request_fields_ok(q.headers@)
                },
                Err(e) => match method_error(raw, max) {
                    Some(x) => e == x,
                    None => forall|m: Method| #[trigger]
                        names_method(raw, m) ==> canonical_request(
                            m,
                            head@,
                            head.buf_spec(),
                            *ctx,
                        ) == Err::<(RequestView, ExpectAction, TargetForm), RejectReason>(e),
                },
            }
        }),
{
    let ghost raw = span_or_empty(head@.method, head.buf_spec());
    let ghost buf_seq = head.buf_spec();
    let l = ctx.limits.get();
    let method = Method::parse(head.method_bytes(), &ctx.limits)?;
    proof {
        assert forall|m: Method| #[trigger] names_method(raw, m) implies canonical_request(
            m,
            head@,
            buf_seq,
            *ctx,
        ) == canonical_request(method, head@, buf_seq, *ctx) && request_left(
            m,
            head@,
            buf_seq,
            *ctx,
        ) == request_left(method, head@, buf_seq, *ctx) by {
            lemma_same_kind(raw, m, method, head@, buf_seq, *ctx);
        }
        assert(content(*arena) + Seq::<u8>::empty() =~= content(*arena));
    }
    let (lines, buf) = head.field_lines();
    let version = head.version();
    let mut fields = compact(lines, buf, version, ctx, arena)?;
    if fields.count_known(KnownHeader::Host) > 1 {
        return Err(RejectReason::HostDuplicate);
    }
    let target = head.target_bytes();
    let (form, path, query, authority) = resolve_target(
        &method,
        target,
        version,
        &fields,
        ctx,
        arena,
    )?;
    let framing = resolve_request_framing(&method, version, &fields, ctx.codings)?;
    let chain = ForwardedChain::from_section(&fields, &ctx.limits, arena)?;
    let peer = resolve_identity(ctx.socket_peer, ctx.proxy_proto, &chain, ctx.trust);
    let action = check_expect(&fields, ctx.will_buffer_body)?;
    if action == ExpectAction::AnswerLocally {
        fields.remove_known(KnownHeader::Expect);
    }
    let ghost before_strip = fields@;
    strip_ingress(&mut fields);
    proof {
        law_stripped_request_is_clean(before_strip);
        assert(request_fields_ok(fields@)) by {
            assert forall|i: int| 0 <= i < fields@.len() implies !crate::canonical::forbidden_in_request(
                #[trigger] fields@[i],
            ) by {
                assert(crate::strip::kept_on_ingress(before_strip, stripped_ingress(before_strip)[i]));
            }
        }
        crate::framing::law_framing_is_justified(method, version, before_strip, ctx.codings);
    }
    let request = CanonicalRequestBuilder::new().method(method).scheme(ctx.scheme).authority(
        authority,
    ).path(path, query).headers(fields).framing(framing).version(version).peer(peer).build()?;
    Ok((request, action, form))
}

/// Two methods that the same bytes name lead to the same canonical form.
proof fn lemma_same_kind(
    raw: Seq<u8>,
    a: Method,
    b: Method,
    head: HeadView,
    buf: Seq<u8>,
    ctx: H1Context,
)
    requires
        names_method(raw, a),
        names_method(raw, b),
    ensures
        canonical_request(a, head, buf, ctx) == canonical_request(b, head, buf, ctx),
        request_left(a, head, buf, ctx) == request_left(b, head, buf, ctx),
{
    if named_method(raw) is None {
        assert forall|fields: Seq<Field>| #[trigger] request_framing(
            a,
            head.version,
            fields,
            ctx.codings,
        ) == request_framing(b, head.version, fields, ctx.codings) by {}
        let target = span_or_empty(head.target, buf);
        assert(target_form(target, a) == target_form(target, b));
    }
}

/// The canonical form of a response with these fields, and the length it
/// declared.
pub open spec fn response_of(
    status: u16,
    version: WireVersion,
    fields: Seq<Field>,
    method: Method,
    codings: OtherCodings,
) -> Result<(Seq<Field>, ResponseFraming, Option<u64>), RejectReason> {
    let lengths = values_of(fields, KnownHeader::ContentLength);
    match response_framing(status, method, version, fields, codings) {
        Err(e) => Err(e),
        Ok(framing) => if lengths.len() == 0 {
            Ok((stripped_response(fields), framing, None))
        } else {
            match content_length(lengths[0]) {
                Err(e) => Err(e),
                Ok(n) => Ok((stripped_response(fields), framing, Some(n))),
            }
        },
    }
}

/// The canonical form of a response head.
pub open spec fn canonical_response(
    head: ResponseHeadView,
    buf: Seq<u8>,
    method: Method,
    ctx: H1Context,
) -> Result<(Seq<Field>, ResponseFraming, Option<u64>), RejectReason> {
    match compacted(head.fields, buf, ctx.underscores, head.version, ctx.limits@) {
        Err(e) => Err(e),
        Ok(fields) => response_of(head.status, head.version, fields, method, ctx.codings),
    }
}

/// Turns a parsed response head into its canonical form, and tells the length
/// that it declared. That length is what `HEAD` must be answered with; it is
/// no body length.
///
/// Where no field line is refused, `arena` holds afterwards what it held
/// before.
pub fn canonicalize_response(
    head: &RawResponseHead<'_>,
    request_method: &Method,
    ctx: &H1Context<'_>,
    arena: &mut BytesMut,
) -> (r: Result<(CanonicalResponse, Option<u64>), RejectReason>)
    requires
        has_room(content(*old(arena)).len() as int, arena_room(head.buf_spec().len() as int)),
    ensures
        content(*final(arena)) == content(*old(arena)) + left_behind(
            head@.fields,
            head.buf_spec(),
            ctx.underscores,
            head@.version,
            ctx.limits@,
        ),
        r is Ok ==> content(*final(arena)) == content(*old(arena)),
        match r {
            Ok((p, declared)) => {
                &&& canonical_response(head@, head.buf_spec(), *request_method, *ctx) == Ok::<
                    (Seq<Field>, ResponseFraming, Option<u64>),
                    RejectReason,
                >((p.headers@, p.framing, declared))
                &&& p.status@ == head@.status
                &&& p.version == head@.version
                &&& response_fields_ok(p.headers@)
            },
            Err(e) => canonical_response(head@, head.buf_spec(), *request_method, *ctx) == Err::<
                (Seq<Field>, ResponseFraming, Option<u64>),
                RejectReason,
            >(e),
        },
{
    let (lines, buf) = head.field_lines();
    let version = head.version();
    let status = head.status();
    let mut fields = compact(lines, buf, version, ctx, arena)?;
    let framing = resolve_response_framing(
        status,
        request_method,
        version,
        &fields,
        ctx.codings,
    )?;
    let declared: Option<u64> = match fields.get_unique_known(KnownHeader::ContentLength) {
        Ok(None) => None,
        Ok(Some(value)) => Some(parse_content_length(value)?),
        Err(_) => {
            return Err(RejectReason::ContentLengthDuplicate);
        },
    };
    let ghost before_strip = fields@;
    strip_response(&mut fields);
    proof {
        law_stripped_response_is_clean(before_strip);
        assert forall|i: int| 0 <= i < fields@.len() implies !crate::canonical::forbidden_in_response(
            #[trigger] fields@[i],
        ) by {
            assert(crate::strip::kept_on_response(before_strip, stripped_response(before_strip)[i]));
        }
    }
    let response = CanonicalResponse::new(status, fields, framing, version)?;
    Ok((response, declared))
}

} // verus!
