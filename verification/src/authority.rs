//! The authority of a request: an ASCII host with an optional port.
//!
//! No hostname mapping is performed. A byte at or above 0x80, a percent-encoded
//! host and an unbracketed IPv6 literal are refused, so that no two readers
//! can take one authority for two hosts.
use crate::error::RejectReason;
use crate::ext::{bytes_of, content, frozen, has_room, put_u8};
use crate::limits::ClampedLimits;
use crate::num::{
    all_digits, dec_text, dec_value, decimal_len, law_decimal_round_trip, lemma_dec_text_len,
    lemma_dec_value_bound, lemma_dec_value_step, pow10, put_decimal,
};
use crate::scalar::{Scheme, WireVersion};
use crate::text::{
    bytes_eq, digit, find, hex, index_of, is_digit, is_hex, is_lower, is_upper, last_index_of,
    lemma_find, lemma_find_is, lemma_rfind, lemma_rfind_is, lower, lower_all, rfind, to_lower,
};
use bytes::{Bytes, BytesMut};
use vstd::prelude::*;
use vstd::slice::slice_subrange;

verus! {

/// A byte that may stand in an authority: one of the 81 bytes
/// `!$%&'()*+,-.:;=[]_~`, `0-9`, `A-Z` and `a-z`. That `:`, `[` and `]` stand
/// in the right places is for [`Authority::parse_into`] to see to.
pub open spec fn host_byte(b: u8) -> bool {
    ||| is_digit(b)
    ||| is_upper(b)
    ||| is_lower(b)
    ||| b == '!' as u8
    ||| b == '$' as u8
    ||| '%' as u8 <= b <= '.' as u8
    ||| b == ':' as u8
    ||| b == ';' as u8
    ||| b == '=' as u8
    ||| b == '[' as u8
    ||| b == ']' as u8
    ||| b == '_' as u8
    ||| b == '~' as u8
}

/// Whether `b` may stand in an authority.
#[must_use]
pub fn host_byte_ok(b: u8) -> (r: bool)
    ensures
        r == host_byte(b),
{
    digit(b) || 'A' as u8 <= b && b <= 'Z' as u8 || 'a' as u8 <= b && b <= 'z' as u8 || b
        == '!' as u8 || b == '$' as u8 || '%' as u8 <= b && b <= '.' as u8 || b == ':' as u8 || b
        == ';' as u8 || b == '=' as u8 || b == '[' as u8 || b == ']' as u8 || b == '_' as u8 || b
        == '~' as u8
}

/// What an [`Authority`] says: its canonical host and its port.
pub struct AuthorityView {
    pub host: Seq<u8>,
    pub port: Option<u16>,
}

/// What is wrong with one byte of an authority.
pub open spec fn authority_byte_error(b: u8) -> Option<RejectReason> {
    if b >= 0x80 {
        Some(RejectReason::AuthorityNonAscii)
    } else if !host_byte(b) {
        Some(RejectReason::AuthorityInvalidByte)
    } else {
        None
    }
}

/// What is wrong with the first bad byte at or after `i`.
pub open spec fn authority_bytes_error(raw: Seq<u8>, i: int) -> Option<RejectReason>
    decreases raw.len() - i,
{
    if i >= raw.len() {
        None
    } else if authority_byte_error(raw[i]) is Some {
        authority_byte_error(raw[i])
    } else {
        authority_bytes_error(raw, i + 1)
    }
}

/// Whether an authority starts with a bracketed literal.
pub open spec fn bracketed(s: Seq<u8>) -> bool {
    s.len() > 0 && s[0] == '[' as u8
}

/// The host text and the port text of an authority, or `None` where they
/// cannot be told apart: a bracket that is not closed, something other than a
/// port behind the bracket, or a second colon.
pub open spec fn split_authority(raw: Seq<u8>) -> Option<(Seq<u8>, Option<Seq<u8>>)> {
    if bracketed(raw) {
        let close = find(raw, ']' as u8, 0);
        if close == raw.len() {
            None
        } else if close + 1 == raw.len() {
            Some((raw, None))
        } else if raw[close + 1] != ':' as u8 {
            None
        } else {
            Some((raw.take(close + 1), Some(raw.skip(close + 2))))
        }
    } else {
        let colon = find(raw, ':' as u8, 0);
        if colon == raw.len() {
            Some((raw, None))
        } else if colon != rfind(raw, ':' as u8, raw.len() as int) {
            None
        } else {
            Some((raw.take(colon), Some(raw.skip(colon + 1))))
        }
    }
}

/// A byte that may stand between the brackets of an IPv6 literal.
pub open spec fn literal_byte(b: u8) -> bool {
    is_hex(b) || b == ':' as u8 || b == '.' as u8
}

/// Whether every byte of `s` may stand between the brackets.
pub open spec fn all_literal_bytes(s: Seq<u8>) -> bool {
    forall|i: int| 0 <= i < s.len() ==> literal_byte(#[trigger] s[i])
}

/// Whether a host text names a host: a bracketed literal that holds a colon
/// and nothing but literal bytes, or a name without `[`, `]` and `%` that is
/// not a lone dot.
pub open spec fn host_text_ok(host: Seq<u8>) -> bool {
    if bracketed(host) {
        let inner = host.subrange(1, host.len() - 1);
        inner.contains(':' as u8) && all_literal_bytes(inner)
    } else {
        &&& !host.contains('[' as u8)
        &&& !host.contains(']' as u8)
        &&& !host.contains('%' as u8)
        &&& host != seq!['.' as u8]
    }
}

/// The port that a port text writes: one to five digits, 1 to 65535.
pub open spec fn port_of_text(text: Seq<u8>) -> Option<u16> {
    if 1 <= text.len() <= 5 && all_digits(text) && 1 <= dec_value(text) <= 65535 {
        Some(dec_value(text) as u16)
    } else {
        None
    }
}

/// A port, with the scheme's default normalized away.
pub open spec fn normal_port(port: u16, scheme: Scheme) -> Option<u16> {
    if port == scheme.default_port_spec() {
        None
    } else {
        Some(port)
    }
}

/// What `raw` says as an authority of `scheme`, or why it says nothing.
pub open spec fn parse_authority(raw: Seq<u8>, scheme: Scheme, max_bytes: u32) -> Result<
    AuthorityView,
    RejectReason,
> {
    if raw.len() == 0 {
        Err(RejectReason::AuthorityEmpty)
    } else if raw.len() > max_bytes {
        Err(RejectReason::AuthorityTooLong)
    } else {
        match authority_bytes_error(raw, 0) {
            Some(e) => Err(e),
            None => match split_authority(raw) {
                None => Err(RejectReason::AuthorityInvalidByte),
                Some((host, port_text)) => if host.len() == 0 {
                    Err(RejectReason::AuthorityEmpty)
                } else if !host_text_ok(host) {
                    Err(RejectReason::AuthorityInvalidByte)
                } else {
                    match port_text {
                        None => Ok(AuthorityView { host: lower_all(host), port: None }),
                        Some(text) => match port_of_text(text) {
                            None => Err(RejectReason::AuthorityPortInvalid),
                            Some(p) => Ok(
                                AuthorityView {
                                    host: lower_all(host),
                                    port: normal_port(p, scheme),
                                },
                            ),
                        },
                    }
                },
            },
        }
    }
}

/// An authority as it is written: the host, and `:port` where there is one.
pub open spec fn authority_text(v: AuthorityView) -> Seq<u8> {
    match v.port {
        None => v.host,
        Some(p) => v.host.push(':' as u8) + dec_text(p as nat),
    }
}

/// Whether a host is in canonical form.
pub open spec fn canonical_host(host: Seq<u8>) -> bool {
    &&& host.len() > 0
    &&& forall|i: int| 0 <= i < host.len() ==> host_byte(#[trigger] host[i]) && !is_upper(host[i])
    &&& host_text_ok(host)
    &&& if bracketed(host) {
        find(host, ']' as u8, 0) == host.len() - 1
    } else {
        !host.contains(':' as u8)
    }
}

pub proof fn lemma_bytes_error(raw: Seq<u8>, i: int)
    requires
        0 <= i <= raw.len(),
    ensures
        authority_bytes_error(raw, i) is None <==> forall|j: int|
            i <= j < raw.len() ==> host_byte(#[trigger] raw[j]),
    decreases raw.len() - i,
{
    if i < raw.len() {
        lemma_bytes_error(raw, i + 1);
        if authority_byte_error(raw[i]) is Some {
            assert(!host_byte(raw[i]));
        }
        if authority_bytes_error(raw, i) is None {
            assert forall|j: int| i <= j < raw.len() implies host_byte(#[trigger] raw[j]) by {
                if j > i {
                }
            }
        } else if authority_byte_error(raw[i]) is None {
            assert(exists|j: int| i + 1 <= j < raw.len() && !host_byte(#[trigger] raw[j]));
        }
    }
}

/// A validated authority. The host is lowercase ASCII; an IPv6 literal keeps
/// its brackets.
#[derive(Debug, Hash)]
pub struct Authority {
    buf: Bytes,
    host_len: u16,
    port: Option<u16>,
}

impl View for Authority {
    type V = AuthorityView;

    closed spec fn view(&self) -> AuthorityView {
        AuthorityView { host: frozen(self.buf).take(self.host_len as int), port: self.port }
    }
}

impl Clone for Authority {
    fn clone(&self) -> (r: Self)
        ensures
            r@ == self@,
    {
        proof {
            use_type_invariant(self);
        }
        Authority { buf: self.buf.clone(), host_len: self.host_len, port: self.port }
    }
}

impl PartialEq for Authority {
    fn eq(&self, other: &Self) -> (r: bool) {
        bytes_eq(self.host(), other.host()) && self.port == other.port
    }
}

impl vstd::std_specs::cmp::PartialEqSpecImpl for Authority {
    open spec fn obeys_eq_spec() -> bool {
        true
    }

    open spec fn eq_spec(&self, other: &Self) -> bool {
        self@ == other@
    }
}

impl Eq for Authority {

}

fn is_host_text(host: &[u8]) -> (r: bool)
    requires
        host@.len() > 0,
        bracketed(host@) ==> host@.len() >= 2,
    ensures
        r == host_text_ok(host@),
{
    if host[0] == '[' as u8 {
        let inner = slice_subrange(host, 1, host.len() - 1);
        let mut has_colon = false;
        let mut i: usize = 0;
        while i < inner.len()
            invariant
                inner@ == host@.subrange(1, host@.len() - 1),
                bracketed(host@),
                i <= inner@.len(),
                has_colon == inner@.take(i as int).contains(':' as u8),
                forall|j: int| 0 <= j < i ==> literal_byte(#[trigger] inner@[j]),
            decreases inner@.len() - i,
        {
            let b: u8 = inner[i];
            if !(hex(b) || b == ':' as u8 || b == '.' as u8) {
                return false;
            }
            proof {
                assert(inner@.take(i + 1) =~= inner@.take(i as int).push(b));
                if inner@.take(i as int).contains(':' as u8) {
                    let k = inner@.take(i as int).index_of(':' as u8);
                    assert(inner@.take(i + 1)[k] == ':' as u8);
                }
                if b == ':' as u8 {
                    assert(inner@.take(i + 1)[i as int] == ':' as u8);
                }
                if inner@.take(i + 1).contains(':' as u8) && b != ':' as u8 {
                    let k = inner@.take(i + 1).index_of(':' as u8);
                    assert(inner@.take(i as int)[k] == ':' as u8);
                }
            }
            if b == ':' as u8 {
                has_colon = true;
            }
            i += 1;
        }
        proof {
            assert(inner@.take(inner@.len() as int) =~= inner@);
        }
        has_colon
    } else {
        let mut i: usize = 0;
        while i < host.len()
            invariant
                i <= host@.len(),
                !bracketed(host@),
                forall|j: int|
                    0 <= j < i ==> #[trigger] host@[j] != '[' as u8 && host@[j] != ']' as u8
                        && host@[j] != '%' as u8,
            decreases host@.len() - i,
        {
            let b: u8 = host[i];
            if b == '[' as u8 || b == ']' as u8 || b == '%' as u8 {
                proof {
                    assert(host@[i as int] == b);
                }
                return false;
            }
            i += 1;
        }
        let dot = host.len() == 1 && host[0] == '.' as u8;
        proof {
            if dot {
                assert(host@ =~= seq!['.' as u8]);
            }
        }
        !dot
    }
}

/// Reads a port text.
fn parse_port_text(text: &[u8]) -> (r: Option<u16>)
    ensures
        r == port_of_text(text@),
{
    if text.len() == 0 || text.len() > 5 {
        return None;
    }
    let mut value: u32 = 0;
    let mut i: usize = 0;
    while i < text.len()
        invariant
            i <= text@.len() <= 5,
            all_digits(text@.take(i as int)),
            value == dec_value(text@.take(i as int)),
        decreases text@.len() - i,
    {
        let b: u8 = text[i];
        if !digit(b) {
            return None;
        }
        proof {
            lemma_dec_value_bound(text@.take(i as int));
            reveal_with_fuel(pow10, 6);
            lemma_dec_value_step(text@, i as int);
            assert(text@.take(i + 1) =~= text@.take(i as int).push(b));
        }
        value = value * 10 + (b - '0' as u8) as u32;
        i += 1;
    }
    proof {
        assert(text@.take(i as int) =~= text@);
    }
    if value == 0 || value > 65535 {
        return None;
    }
    Some(value as u16)
}

impl Authority {
    #[verifier::type_invariant]
    closed spec fn inv(self) -> bool {
        &&& self.host_len == frozen(self.buf).len()
        &&& canonical_host(frozen(self.buf))
        &&& self.port != Some(0u16)
    }

    /// Reads and validates an authority.
    ///
    /// The host is lowercased. A port equal to the scheme's default is
    /// normalized away. The host's bytes are built at the end of `out` and
    /// taken from there, so `out` holds afterwards what it held before.
    pub fn parse_into(
        raw: &[u8],
        scheme: Scheme,
        limits: &ClampedLimits,
        out: &mut BytesMut,
    ) -> (r: Result<Authority, RejectReason>)
        requires
            has_room(content(*old(out)).len() as int, limits@.max_authority_bytes as int),
        ensures
            content(*final(out)) == content(*old(out)),
            match r {
                Ok(a) => parse_authority(raw@, scheme, limits@.max_authority_bytes) == Ok::<
                    AuthorityView,
                    RejectReason,
                >(a@),
                Err(e) => parse_authority(raw@, scheme, limits@.max_authority_bytes) == Err::<
                    AuthorityView,
                    RejectReason,
                >(e),
            },
    {
        if raw.len() == 0 {
            return Err(RejectReason::AuthorityEmpty);
        }
        let max: u32 = limits.get().max_authority_bytes;
        if raw.len() > max as usize {
            return Err(RejectReason::AuthorityTooLong);
        }
        let mut i: usize = 0;
        while i < raw.len()
            invariant
                i <= raw@.len(),
                0 < raw@.len() <= max,
                max == limits@.max_authority_bytes,
                content(*out) == content(*old(out)),
                authority_bytes_error(raw@, 0) == authority_bytes_error(raw@, i as int),
            decreases raw@.len() - i,
        {
            if raw[i] >= 0x80 {
                return Err(RejectReason::AuthorityNonAscii);
            }
            if !host_byte_ok(raw[i]) {
                return Err(RejectReason::AuthorityInvalidByte);
            }
            i += 1;
        }
        proof {
            lemma_bytes_error(raw@, 0);
            lemma_find(raw@, ']' as u8, 0);
            lemma_find(raw@, ':' as u8, 0);
        }
        let (host, port_text): (&[u8], Option<&[u8]>) = if raw[0] == '[' as u8 {
            match index_of(raw, ']' as u8) {
                None => {
                    return Err(RejectReason::AuthorityInvalidByte);
                },
                Some(close) => {
                    if close + 1 == raw.len() {
                        (raw, None)
                    } else if raw[close + 1] != ':' as u8 {
                        return Err(RejectReason::AuthorityInvalidByte);
                    } else {
                        (
                            slice_subrange(raw, 0, close + 1),
                            Some(slice_subrange(raw, close + 2, raw.len())),
                        )
                    }
                },
            }
        } else {
            match last_index_of(raw, ':' as u8) {
                None => {
                    proof {
                        lemma_rfind(raw@, ':' as u8, raw@.len() as int);
                    }
                    (raw, None)
                },
                Some(colon) => {
                    proof {
                        lemma_rfind(raw@, ':' as u8, raw@.len() as int);
                    }
                    let host = slice_subrange(raw, 0, colon);
                    if let Some(first) = index_of(host, ':' as u8) {
                        proof {
                            lemma_find(host@, ':' as u8, 0);
                            assert forall|j: int| 0 <= j < first implies raw@[j] != ':' as u8 by {
                                assert(host@[j] == raw@[j]);
                            }
                            lemma_find_is(raw@, ':' as u8, 0, first as int);
                        }
                        return Err(RejectReason::AuthorityInvalidByte);
                    }
                    proof {
                        lemma_find(host@, ':' as u8, 0);
                        assert forall|j: int| 0 <= j < colon implies raw@[j] != ':' as u8 by {
                            assert(host@[j] == raw@[j]);
                        }
                        lemma_find_is(raw@, ':' as u8, 0, colon as int);
                    }
                    (host, Some(slice_subrange(raw, colon + 1, raw.len())))
                },
            }
        };
        proof {
            assert(raw@.subrange(0, raw@.len() as int) =~= raw@);
            assert(split_authority(raw@) == Some(
                (
                    host@,
                    match port_text {
                        None => None::<Seq<u8>>,
                        Some(t) => Some(t@),
                    },
                ),
            ));
        }
        if host.len() == 0 {
            return Err(RejectReason::AuthorityEmpty);
        }
        if !is_host_text(host) {
            return Err(RejectReason::AuthorityInvalidByte);
        }
        let port: Option<u16> = match port_text {
            None => None,
            Some(text) => match parse_port_text(text) {
                None => {
                    return Err(RejectReason::AuthorityPortInvalid);
                },
                Some(p) => if p == scheme.default_port() {
                    None
                } else {
                    Some(p)
                },
            },
        };
        let base: usize = out.len();
        let ghost before = content(*out);
        let mut k: usize = 0;
        while k < host.len()
            invariant
                k <= host@.len() <= max,
                base == before.len(),
                has_room(before.len() as int, max as int),
                content(*out).len() == base + k,
                content(*out).take(base as int) == before,
                forall|j: int| 0 <= j < k ==> content(*out)[base + j] == lower(host@[j]),
            decreases host@.len() - k,
        {
            let ghost prev = content(*out);
            put_u8(out, to_lower(host[k]));
            proof {
                assert(content(*out).take(base as int) =~= prev.take(base as int));
            }
            k += 1;
        }
        let buf = out.split_off(base).freeze();
        proof {
            assert(frozen(buf) =~= lower_all(host@));
            if bracketed(raw@) {
                lemma_find_is(host@, ']' as u8, 0, host@.len() - 1);
            }
            assert forall|j: int| 0 <= j < host@.len() implies host_byte(#[trigger] host@[j]) by {
                assert(host_byte(raw@[j]));
            }
            lemma_lower_host(host@);
            assert(frozen(buf).take(host@.len() as int) =~= frozen(buf));
        }
        Ok(Authority { buf, host_len: host.len() as u16, port })
    }

    /// The canonical host: lowercase ASCII, with its brackets if it is an IPv6
    /// literal.
    #[must_use]
    pub fn host(&self) -> (r: &[u8])
        ensures
            r@ == self@.host,
            canonical_host(r@),
            r@.len() <= u16::MAX,
    {
        proof {
            use_type_invariant(self);
            assert(frozen(self.buf).take(self.host_len as int) =~= frozen(self.buf));
        }
        slice_subrange(bytes_of(&self.buf), 0, self.host_len as usize)
    }

    /// The port, or `None` when absent or equal to the scheme's default.
    #[must_use]
    pub fn port(&self) -> (r: Option<u16>)
        ensures
            r == self@.port,
            r != Some(0u16),
    {
        proof {
            use_type_invariant(self);
        }
        self.port
    }

    /// The port, with `None` resolved to the scheme's default.
    #[must_use]
    pub fn effective_port(&self, scheme: Scheme) -> (r: u16)
        ensures
            r == match self@.port {
                Some(p) => p,
                None => scheme.default_port_spec(),
            },
    {
        match self.port {
            Some(p) => p,
            None => scheme.default_port(),
        }
    }

    /// Whether the host is a bracketed IPv6 literal.
    #[must_use]
    pub fn is_ipv6_literal(&self) -> (r: bool)
        ensures
            r == bracketed(self@.host),
    {
        self.host()[0] == '[' as u8
    }

    /// Appends the canonical `host` or `host:port` form and returns the number
    /// of bytes written.
    pub fn write_to(&self, out: &mut BytesMut) -> (r: usize)
        requires
            has_room(content(*old(out)).len() as int, authority_text(self@).len() as int),
        ensures
            content(*final(out)) == content(*old(out)) + authority_text(self@),
            r == authority_text(self@).len(),
    {
        let host = self.host();
        out.extend_from_slice(host);
        match self.port {
            None => host.len(),
            Some(p) => {
                put_u8(out, ':' as u8);
                let n: usize = put_decimal(out, p as u64);
                proof {
                    assert(content(*out) =~= content(*old(out)) + authority_text(self@));
                }
                host.len() + 1 + n
            },
        }
    }

    /// The number of bytes [`Authority::write_to`] writes.
    #[must_use]
    pub fn written_len(&self) -> (r: usize)
        ensures
            r == authority_text(self@).len(),
            r <= u16::MAX + 21,
    {
        let n: usize = self.host().len();
        match self.port {
            None => n,
            Some(p) => n + 1 + decimal_len(p as u64),
        }
    }
}

/// A host text that names a host is canonical once lowercased.
proof fn lemma_lower_host(host: Seq<u8>)
    requires
        host.len() > 0,
        forall|j: int| 0 <= j < host.len() ==> host_byte(#[trigger] host[j]),
        host_text_ok(host),
        bracketed(host) ==> find(host, ']' as u8, 0) == host.len() - 1,
        !bracketed(host) ==> !host.contains(':' as u8),
    ensures
        canonical_host(lower_all(host)),
{
    let low = lower_all(host);
    assert forall|j: int| 0 <= j < low.len() implies host_byte(#[trigger] low[j]) && !is_upper(
        low[j],
    ) by {
        assert(host_byte(host[j]));
    }
    if bracketed(host) {
        lemma_find(host, ']' as u8, 0);
        lemma_find_is(low, ']' as u8, 0, host.len() - 1);
        let inner = host.subrange(1, host.len() - 1);
        let low_inner = low.subrange(1, low.len() - 1);
        let k = inner.index_of(':' as u8);
        assert(inner[k] == ':' as u8);
        assert(low_inner[k] == ':' as u8);
        assert forall|j: int| 0 <= j < low_inner.len() implies literal_byte(
            #[trigger] low_inner[j],
        ) by {
            assert(literal_byte(inner[j]));
        }
    } else {
        assert forall|b: u8|
            b == '[' as u8 || b == ']' as u8 || b == '%' as u8 || b == ':' as u8 implies !low.contains(
            b,
        ) by {
            if low.contains(b) {
                let k = low.index_of(b);
                assert(host[k] == b);
                assert(host.contains(b));
            }
        }
        assert(!low.contains('[' as u8) && !low.contains(']' as u8) && !low.contains('%' as u8)
            && !low.contains(':' as u8));
        if low == seq!['.' as u8] {
            assert(low[0] == '.' as u8);
            assert(host =~= seq!['.' as u8]);
        }
    }
}

/// The bytes behind an optional slice.
pub open spec fn opt_bytes(o: Option<&[u8]>) -> Option<Seq<u8>> {
    match o {
        Some(s) => Some(s@),
        None => None,
    }
}

/// The one authority that a `Host` field and an `:authority` agree on, or why
/// there is none.
pub open spec fn reconciled(
    host_field: Option<Seq<u8>>,
    pseudo_authority: Option<Seq<u8>>,
    scheme: Scheme,
    version: WireVersion,
    max_bytes: u32,
) -> Result<AuthorityView, RejectReason> {
    if !version.is_multiplexed_spec() {
        match (host_field, pseudo_authority) {
            (_, Some(_)) => Err(RejectReason::AuthorityMismatch),
            (None, None) => Err(RejectReason::HostMissing),
            (Some(host), None) => parse_authority(host, scheme, max_bytes),
        }
    } else {
        match (host_field, pseudo_authority) {
            (None, None) => Err(RejectReason::PseudoHeaderMissing),
            (Some(host), None) => parse_authority(host, scheme, max_bytes),
            (None, Some(pseudo)) => parse_authority(pseudo, scheme, max_bytes),
            (Some(host), Some(pseudo)) => match (
                parse_authority(host, scheme, max_bytes),
                parse_authority(pseudo, scheme, max_bytes),
            ) {
                (Err(e), _) => Err(e),
                (Ok(_), Err(e)) => Err(e),
                (Ok(a), Ok(b)) => if a == b {
                    Ok(b)
                } else {
                    Err(RejectReason::AuthorityMismatch)
                },
            },
        }
    }
}

/// Produces the single [`Authority`] of a request from whichever of `Host` and
/// `:authority` are present, refusing a mismatch.
///
/// HTTP/1 has no `:authority`: one there is a mismatch. On HTTP/2 and HTTP/3
/// the pseudo-header stands in for `Host`. `out` holds afterwards what it held
/// before.
pub fn reconcile_authority(
    host_field: Option<&[u8]>,
    pseudo_authority: Option<&[u8]>,
    scheme: Scheme,
    version: WireVersion,
    limits: &ClampedLimits,
    out: &mut BytesMut,
) -> (r: Result<Authority, RejectReason>)
    requires
        has_room(content(*old(out)).len() as int, limits@.max_authority_bytes as int),
    ensures
        content(*final(out)) == content(*old(out)),
        match r {
            Ok(a) => reconciled(
                opt_bytes(host_field),
                opt_bytes(pseudo_authority),
                scheme,
                version,
                limits@.max_authority_bytes,
            ) == Ok::<AuthorityView, RejectReason>(a@),
            Err(e) => reconciled(
                opt_bytes(host_field),
                opt_bytes(pseudo_authority),
                scheme,
                version,
                limits@.max_authority_bytes,
            ) == Err::<AuthorityView, RejectReason>(e),
        },
{
    match version {
        WireVersion::Http10 | WireVersion::Http11 => {
            if pseudo_authority.is_some() {
                return Err(RejectReason::AuthorityMismatch);
            }
            match host_field {
                None => Err(RejectReason::HostMissing),
                Some(host) => Authority::parse_into(host, scheme, limits, out),
            }
        },
        WireVersion::H2 | WireVersion::H3 => match (host_field, pseudo_authority) {
            (None, None) => Err(RejectReason::PseudoHeaderMissing),
            (Some(host), None) => Authority::parse_into(host, scheme, limits, out),
            (None, Some(authority)) => Authority::parse_into(authority, scheme, limits, out),
            (Some(host), Some(authority)) => {
                let from_host = Authority::parse_into(host, scheme, limits, out)?;
                let from_pseudo = Authority::parse_into(authority, scheme, limits, out)?;
                if from_host != from_pseudo {
                    return Err(RejectReason::AuthorityMismatch);
                }
                Ok(from_pseudo)
            },
        },
    }
}

/// What a parsed authority looks like: its host is canonical (so non-empty,
/// ASCII and lowercase), its port is neither zero nor the scheme's default,
/// and its text is no longer than what it was read from.
pub proof fn law_parsed_authority(raw: Seq<u8>, scheme: Scheme, max_bytes: u32)
    requires
        parse_authority(raw, scheme, max_bytes) is Ok,
    ensures
        ({
            let v = parse_authority(raw, scheme, max_bytes)->Ok_0;
            &&& canonical_host(v.host)
            &&& forall|i: int|
                0 <= i < v.host.len() ==> #[trigger] v.host[i] < 0x80 && !is_upper(v.host[i])
            &&& v.port != Some(0u16)
            &&& v.port != Some(scheme.default_port_spec())
            &&& authority_text(v).len() <= raw.len()
        }),
{
    let v = parse_authority(raw, scheme, max_bytes)->Ok_0;
    lemma_bytes_error(raw, 0);
    lemma_find(raw, ']' as u8, 0);
    lemma_find(raw, ':' as u8, 0);
    lemma_rfind(raw, ':' as u8, raw.len() as int);
    let (host, port_text) = split_authority(raw)->Some_0;
    if bracketed(raw) {
        lemma_find_is(host, ']' as u8, 0, host.len() - 1);
    } else {
        assert forall|j: int| 0 <= j < host.len() implies host[j] != ':' as u8 by {
            assert(host[j] == raw[j]);
        }
    }
    assert forall|j: int| 0 <= j < host.len() implies host_byte(#[trigger] host[j]) by {
        assert(host_byte(raw[j]));
    }
    lemma_lower_host(host);
    match port_text {
        None => {},
        Some(text) => {
            let p = port_of_text(text)->Some_0;
            lemma_dec_value_bound(text);
            lemma_dec_text_len(p as nat, text.len());
        },
    }
    assert forall|i: int| 0 <= i < v.host.len() implies #[trigger] v.host[i] < 0x80 && !is_upper(
        v.host[i],
    ) by {
        assert(host_byte(v.host[i]));
    }
}

/// A canonical host and a port that is neither zero nor the default read back
/// from their text.
pub proof fn law_authority_text_reads_back(v: AuthorityView, scheme: Scheme, max_bytes: u32)
    requires
        canonical_host(v.host),
        v.port != Some(0u16),
        v.port != Some(scheme.default_port_spec()),
        authority_text(v).len() <= max_bytes,
    ensures
        parse_authority(authority_text(v), scheme, max_bytes) == Ok::<AuthorityView, RejectReason>(
            v,
        ),
{
    let text = authority_text(v);
    let host = v.host;
    let n = host.len() as int;
    assert(lower_all(host) =~= host);
    lemma_find(host, ']' as u8, 0);
    match v.port {
        None => {
            lemma_bytes_error(text, 0);
            lemma_find_is(text, ']' as u8, 0, find(host, ']' as u8, 0));
            if !bracketed(host) {
                assert forall|j: int| 0 <= j < n implies host[j] != ':' as u8 by {}
                lemma_find_is(text, ':' as u8, 0, n);
            }
        },
        Some(p) => {
            let digits = dec_text(p as nat);
            law_decimal_round_trip(p as nat);
            reveal_with_fuel(pow10, 6);
            lemma_dec_text_len(p as nat, 5);
            assert forall|j: int| 0 <= j < text.len() implies host_byte(#[trigger] text[j]) by {
                if j < n {
                    assert(text[j] == host[j]);
                } else if j > n {
                    assert(text[j] == digits[j - n - 1]);
                    assert(is_digit(digits[j - n - 1]));
                }
            }
            lemma_bytes_error(text, 0);
            assert(text.skip(n + 1) =~= digits);
            assert(text.take(n) =~= host);
            if bracketed(host) {
                lemma_find_is(text, ']' as u8, 0, n - 1);
            } else {
                assert forall|j: int| 0 <= j < n implies text[j] != ':' as u8 by {
                    assert(text[j] == host[j]);
                }
                lemma_find_is(text, ':' as u8, 0, n);
                assert forall|j: int| n < j < text.len() implies text[j] != ':' as u8 by {
                    assert(is_digit(digits[j - n - 1]));
                }
                lemma_rfind_is(text, ':' as u8, text.len() as int, n);
            }
        },
    }
}

/// What is written of a parsed authority reads back as the same authority.
pub proof fn law_authority_round_trip(raw: Seq<u8>, scheme: Scheme, max_bytes: u32)
    requires
        parse_authority(raw, scheme, max_bytes) is Ok,
    ensures
        parse_authority(
            authority_text(parse_authority(raw, scheme, max_bytes)->Ok_0),
            scheme,
            max_bytes,
        ) == parse_authority(raw, scheme, max_bytes),
{
    law_parsed_authority(raw, scheme, max_bytes);
    law_authority_text_reads_back(
        parse_authority(raw, scheme, max_bytes)->Ok_0,
        scheme,
        max_bytes,
    );
}

/// Where both a `Host` and an `:authority` are accepted, both name the one
/// authority that comes of them.
pub proof fn law_reconciled_authorities_agree(
    host: Seq<u8>,
    pseudo: Seq<u8>,
    scheme: Scheme,
    version: WireVersion,
    max_bytes: u32,
)
    requires
        reconciled(Some(host), Some(pseudo), scheme, version, max_bytes) is Ok,
    ensures
        version.is_multiplexed_spec(),
        parse_authority(host, scheme, max_bytes) == reconciled(
            Some(host),
            Some(pseudo),
            scheme,
            version,
            max_bytes,
        ),
        parse_authority(pseudo, scheme, max_bytes) == reconciled(
            Some(host),
            Some(pseudo),
            scheme,
            version,
            max_bytes,
        ),
{
}

} // verus!
