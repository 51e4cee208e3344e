//! The single internal form of a request and of a response.
//!
//! Nothing behind the parser sees wire bytes, and nothing before the
//! serializer does. There is no raw target, no second path and no inbound
//! framing field.
use crate::authority::Authority;
use crate::error::RejectReason;
use crate::ext::{content, has_room, put_u8};
use crate::framing::RequestFraming;
use crate::path::{NormalizedPath, RawQuery};
use crate::peer::PeerIdentity;
use crate::response::ResponseFraming;
use crate::scalar::{Method, Scheme, StatusCode, WireVersion};
use crate::section::{Field, FieldSection};
use crate::strip::{
    hop_by_hop, identity_field, is_hop_by_hop, is_identity_field, is_reserved_prefix,
    is_response_reserved_prefix, reserved_prefix, response_reserved_prefix,
};
use bytes::BytesMut;
use vstd::prelude::*;

verus! {

/// The single internal form of a request.
#[derive(Debug)]
pub struct CanonicalRequest {
    /// The request method.
    pub method: Method,
    /// The scheme.
    pub scheme: Scheme,
    /// The validated authority.
    pub authority: Authority,
    /// The one path value.
    pub path: NormalizedPath,
    /// The query as received; `None` means there was no `?`.
    pub query: Option<RawQuery>,
    /// End-to-end fields only.
    pub headers: FieldSection,
    /// The resolved framing.
    pub framing: RequestFraming,
    /// What the request was received on.
    pub version: WireVersion,
    /// The one client identity.
    pub peer: PeerIdentity,
}

impl Clone for CanonicalRequest {
    fn clone(&self) -> (r: Self)
        ensures
            r.method == self.method,
            r.scheme == self.scheme,
            r.authority@ == self.authority@,
            r.path@ == self.path@,
            query_view(r.query) == query_view(self.query),
            r.headers@ == self.headers@,
            r.framing == self.framing,
            r.version == self.version,
            r.peer == self.peer,
    {
        CanonicalRequest {
            method: self.method,
            scheme: self.scheme,
            authority: self.authority.clone(),
            path: self.path.clone(),
            query: match &self.query {
                Some(q) => Some(q.clone()),
                None => None,
            },
            headers: self.headers.clone(),
            framing: self.framing,
            version: self.version,
            peer: self.peer,
        }
    }
}

/// The bytes of a query, where there is one.
pub open spec fn query_view(q: Option<RawQuery>) -> Option<Seq<u8>> {
    match q {
        Some(q) => Some(q@),
        None => None,
    }
}

/// What a [`CanonicalRequestBuilder`] was given.
pub struct RequestParts {
    pub method: Option<Method>,
    pub scheme: Option<Scheme>,
    pub authority: Option<Authority>,
    pub path: Option<(NormalizedPath, Option<RawQuery>)>,
    pub headers: Option<FieldSection>,
    pub framing: Option<RequestFraming>,
    pub version: Option<WireVersion>,
    pub peer: Option<PeerIdentity>,
}

/// Whether a field may not stand in a canonical request.
pub open spec fn forbidden_in_request(f: Field) -> bool {
    hop_by_hop(f.known()) || identity_field(f.known()) || reserved_prefix(f.name)
}

/// Whether no field is forbidden in a canonical request.
pub open spec fn request_fields_ok(fields: Seq<Field>) -> bool {
    forall|i: int| 0 <= i < fields.len() ==> !forbidden_in_request(#[trigger] fields[i])
}

/// Why these parts make no request.
pub open spec fn build_error(p: RequestParts) -> Option<RejectReason> {
    if p.method is None || p.scheme is None || p.authority is None || p.path is None
        || p.headers is None || p.framing is None || p.version is None || p.peer is None {
        Some(RejectReason::RequestLineMalformed)
    } else if !request_fields_ok((p.headers->Some_0)@) {
        Some(RejectReason::ConnectionSpecificField)
    } else if p.framing->Some_0 is Streamed && p.version->Some_0 is Http10 {
        Some(RejectReason::TransferEncodingOnHttp10)
    } else if p.method->Some_0 is Connect && !(p.framing->Some_0 is Empty) {
        Some(RejectReason::BodyNotAllowedForMethod)
    } else {
        None
    }
}

/// Builds a [`CanonicalRequest`], refusing one that would carry a field it
/// may not carry or an impossible framing.
#[derive(Debug)]
pub struct CanonicalRequestBuilder {
    method: Option<Method>,
    scheme: Option<Scheme>,
    authority: Option<Authority>,
    path: Option<(NormalizedPath, Option<RawQuery>)>,
    headers: Option<FieldSection>,
    framing: Option<RequestFraming>,
    version: Option<WireVersion>,
    peer: Option<PeerIdentity>,
}

impl Default for CanonicalRequestBuilder {
    fn default() -> (r: Self)
        ensures
            r.parts() == CanonicalRequestBuilder::no_parts(),
    {
        CanonicalRequestBuilder {
            method: None,
            scheme: None,
            authority: None,
            path: None,
            headers: None,
            framing: None,
            version: None,
            peer: None,
        }
    }
}

impl CanonicalRequestBuilder {
    /// What the builder was given so far.
    pub closed spec fn parts(&self) -> RequestParts {
        RequestParts {
            method: self.method,
            scheme: self.scheme,
            authority: self.authority,
            path: self.path,
            headers: self.headers,
            framing: self.framing,
            version: self.version,
            peer: self.peer,
        }
    }

    /// Nothing.
    pub open spec fn no_parts() -> RequestParts {
        RequestParts {
            method: None,
            scheme: None,
            authority: None,
            path: None,
            headers: None,
            framing: None,
            version: None,
            peer: None,
        }
    }

    /// A new, empty builder.
    #[must_use]
    pub fn new() -> (r: Self)
        ensures
            r.parts() == CanonicalRequestBuilder::no_parts(),
    {
        CanonicalRequestBuilder::default()
    }

    /// Sets the method.
    #[must_use]
    pub fn method(self, m: Method) -> (r: Self)
        ensures
            r.parts() == (RequestParts { method: Some(m), ..self.parts() }),
    {
        CanonicalRequestBuilder { method: Some(m), ..self }
    }

    /// Sets the scheme.
    #[must_use]
    pub fn scheme(self, s: Scheme) -> (r: Self)
        ensures
            r.parts() == (RequestParts { scheme: Some(s), ..self.parts() }),
    {
        CanonicalRequestBuilder { scheme: Some(s), ..self }
    }

    /// Sets the authority.
    #[must_use]
    pub fn authority(self, a: Authority) -> (r: Self)
        ensures
            r.parts() == (RequestParts { authority: Some(a), ..self.parts() }),
    {
        CanonicalRequestBuilder { authority: Some(a), ..self }
    }

    /// Sets the path and the query.
    #[must_use]
    pub fn path(self, p: NormalizedPath, q: Option<RawQuery>) -> (r: Self)
        ensures
            r.parts() == (RequestParts { path: Some((p, q)), ..self.parts() }),
    {
        CanonicalRequestBuilder { path: Some((p, q)), ..self }
    }

    /// Sets the fields, which were stripped before.
    #[must_use]
    pub fn headers(self, h: FieldSection) -> (r: Self)
        ensures
            r.parts() == (RequestParts { headers: Some(h), ..self.parts() }),
    {
        CanonicalRequestBuilder { headers: Some(h), ..self }
    }

    /// Sets the resolved framing.
    #[must_use]
    pub fn framing(self, f: RequestFraming) -> (r: Self)
        ensures
            r.parts() == (RequestParts { framing: Some(f), ..self.parts() }),
    {
        CanonicalRequestBuilder { framing: Some(f), ..self }
    }

    /// Sets the version.
    #[must_use]
    pub fn version(self, v: WireVersion) -> (r: Self)
        ensures
            r.parts() == (RequestParts { version: Some(v), ..self.parts() }),
    {
        CanonicalRequestBuilder { version: Some(v), ..self }
    }

    /// Sets the client identity.
    #[must_use]
    pub fn peer(self, p: PeerIdentity) -> (r: Self)
        ensures
            r.parts() == (RequestParts { peer: Some(p), ..self.parts() }),
    {
        CanonicalRequestBuilder { peer: Some(p), ..self }
    }

    /// Builds the request. Every part must have been set; the fields must
    /// hold no hop-by-hop, identity or reserved field; HTTP/1.0 has no
    /// streamed body and `CONNECT` no body at all.
    pub fn build(self) -> (r: Result<CanonicalRequest, RejectReason>)
        ensures
            match r {
                Ok(q) => {
                    &&& build_error(self.parts()) is None
                    &&& self.parts() == (RequestParts {
                        method: Some(q.method),
                        scheme: Some(q.scheme),
                        authority: Some(q.authority),
                        path: Some((q.path, q.query)),
                        headers: Some(q.headers),
                        framing: Some(q.framing),
                        version: Some(q.version),
                        peer: Some(q.peer),
                    })
                },
                Err(e) => build_error(self.parts()) == Some(e),
            },
    {
        let method = match self.method {
            Some(m) => m,
            None => {
                return Err(RejectReason::RequestLineMalformed);
            },
        };
        let scheme = match self.scheme {
            Some(s) => s,
            None => {
                return Err(RejectReason::RequestLineMalformed);
            },
        };
        let authority = match self.authority {
            Some(a) => a,
            None => {
                return Err(RejectReason::RequestLineMalformed);
            },
        };
        let (path, query) = match self.path {
            Some(p) => p,
            None => {
                return Err(RejectReason::RequestLineMalformed);
            },
        };
        let headers = match self.headers {
            Some(h) => h,
            None => {
                return Err(RejectReason::RequestLineMalformed);
            },
        };
        let framing = match self.framing {
            Some(f) => f,
            None => {
                return Err(RejectReason::RequestLineMalformed);
            },
        };
        let version = match self.version {
            Some(v) => v,
            None => {
                return Err(RejectReason::RequestLineMalformed);
            },
        };
        let peer = match self.peer {
            Some(p) => p,
            None => {
                return Err(RejectReason::RequestLineMalformed);
            },
        };
        if !check_request_fields(&headers) {
            return Err(RejectReason::ConnectionSpecificField);
        }
        if matches!(framing, RequestFraming::Streamed) && matches!(version, WireVersion::Http10) {
            return Err(RejectReason::TransferEncodingOnHttp10);
        }
        if method.is_connect() && !matches!(framing, RequestFraming::Empty) {
            return Err(RejectReason::BodyNotAllowedForMethod);
        }
        Ok(
            CanonicalRequest {
                method,
                scheme,
                authority,
                path,
                query,
                headers,
                framing,
                version,
                peer,
            },
        )
    }
}

/// Whether no field is forbidden in a canonical request.
fn check_request_fields(headers: &FieldSection) -> (r: bool)
    ensures
        r == request_fields_ok(headers@),
{
    let slots = headers.slots();
    let mut i: usize = 0;
    while i < slots.len()
        invariant
            i <= slots@.len() == headers@.len(),
            forall|j: int|
                0 <= j < slots@.len() ==> (#[trigger] slots@[j])@ == headers@[j].known(),
            forall|j: int| 0 <= j < i ==> !forbidden_in_request(#[trigger] headers@[j]),
        decreases slots@.len() - i,
    {
        let known = slots[i].known();
        assert(slots@[i as int]@ == headers@[i as int].known());
        match headers.name_at(i) {
            Some(name) => {
                if is_hop_by_hop(known) || is_identity_field(known) || is_reserved_prefix(name) {
                    assert(forbidden_in_request(headers@[i as int]));
                    return false;
                }
            },
            None => {
                return false;
            },
        }
        i += 1;
    }
    true
}

/// A path and query as they are written upstream.
pub open spec fn target_text(path: Seq<u8>, query: Option<Seq<u8>>) -> Seq<u8> {
    match query {
        None => path,
        Some(q) => path.push('?' as u8) + q,
    }
}

/// The smaller of a length and the greatest `usize`.
pub open spec fn sat_len(n: int) -> usize {
    if n <= usize::MAX {
        n as usize
    } else {
        usize::MAX
    }
}

impl CanonicalRequest {
    /// The path and query as they are written upstream.
    pub open spec fn target_spec(&self) -> Seq<u8> {
        target_text(self.path@, query_view(self.query))
    }

    /// Whether there is a body to forward.
    #[must_use]
    pub fn has_body(&self) -> (r: bool)
        ensures
            r == !(self.framing is Empty),
    {
        self.framing.has_body()
    }

    /// Appends the path and query as they are written upstream and returns
    /// the number of bytes. An empty query keeps its `?`; an absent one has
    /// none.
    pub fn write_target(&self, out: &mut BytesMut) -> (r: usize)
        requires
            has_room(content(*old(out)).len() as int, self.target_spec().len() as int),
        ensures
            content(*final(out)) == content(*old(out)) + self.target_spec(),
            r == self.target_spec().len(),
    {
        let start: usize = out.len();
        let ghost before = content(*out);
        out.extend_from_slice(self.path.as_bytes());
        if let Some(query) = &self.query {
            put_u8(out, '?' as u8);
            out.extend_from_slice(query.as_bytes());
        }
        assert(content(*out) =~= before + self.target_spec());
        out.len() - start
    }

    /// The number of bytes that [`CanonicalRequest::write_target`] writes.
    #[must_use]
    pub fn target_len(&self) -> (r: usize)
        ensures
            r == sat_len(self.target_spec().len() as int),
    {
        let query_len: usize = match &self.query {
            Some(q) => q.len().saturating_add(1),
            None => 0,
        };
        self.path.len().saturating_add(query_len)
    }
}

/// The single internal form of a response.
#[derive(Debug)]
pub struct CanonicalResponse {
    /// The status code.
    pub status: StatusCode,
    /// End-to-end fields only.
    pub headers: FieldSection,
    /// The resolved framing.
    pub framing: ResponseFraming,
    /// What the response was received on.
    pub version: WireVersion,
}

impl Clone for CanonicalResponse {
    fn clone(&self) -> (r: Self)
        ensures
            r.status == self.status,
            r.headers@ == self.headers@,
            r.framing == self.framing,
            r.version == self.version,
    {
        CanonicalResponse {
            status: self.status,
            headers: self.headers.clone(),
            framing: self.framing,
            version: self.version,
        }
    }
}

/// Whether a field may not stand in a canonical response. Unlike in a
/// request, `x-envoy-` fields may.
pub open spec fn forbidden_in_response(f: Field) -> bool {
    hop_by_hop(f.known()) || response_reserved_prefix(f.name)
}

/// Whether no field is forbidden in a canonical response.
pub open spec fn response_fields_ok(fields: Seq<Field>) -> bool {
    forall|i: int| 0 <= i < fields.len() ==> !forbidden_in_response(#[trigger] fields[i])
}

impl CanonicalResponse {
    /// Builds a response, refusing one that still carries a hop-by-hop or a
    /// reserved field.
    pub fn new(
        status: StatusCode,
        headers: FieldSection,
        framing: ResponseFraming,
        version: WireVersion,
    ) -> (r: Result<CanonicalResponse, RejectReason>)
        ensures
            match r {
                Ok(p) => response_fields_ok(headers@) && p == (CanonicalResponse {
                    status,
                    headers,
                    framing,
                    version,
                }),
                Err(e) => !response_fields_ok(headers@) && e
                    == RejectReason::ConnectionSpecificField,
            },
    {
        let slots = headers.slots();
        let mut i: usize = 0;
        while i < slots.len()
            invariant
                i <= slots@.len() == headers@.len(),
                forall|j: int|
                    0 <= j < slots@.len() ==> (#[trigger] slots@[j])@ == headers@[j].known(),
                forall|j: int| 0 <= j < i ==> !forbidden_in_response(#[trigger] headers@[j]),
            decreases slots@.len() - i,
        {
            let known = slots[i].known();
            assert(slots@[i as int]@ == headers@[i as int].known());
            match headers.name_at(i) {
                Some(name) => {
                    if is_hop_by_hop(known) || is_response_reserved_prefix(name) {
                        assert(forbidden_in_response(headers@[i as int]));
                        return Err(RejectReason::ConnectionSpecificField);
                    }
                },
                None => {
                    return Err(RejectReason::ConnectionSpecificField);
                },
            }
            i += 1;
        }
        Ok(CanonicalResponse { status, headers, framing, version })
    }
}

} // verus!
