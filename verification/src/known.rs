//! The fields that the library itself looks at.
use crate::text::{ascii, bytes_eq, lemma_ascii};
use vstd::prelude::*;

verus! {

/// A field that some rule of the library names, or any other.
#[derive(Copy, Clone, Debug, PartialEq, Eq, Hash, Structural)]
pub enum KnownHeader {
    /// `host`.
    Host,
    /// `content-length`.
    ContentLength,
    /// `transfer-encoding`.
    TransferEncoding,
    /// `connection`.
    Connection,
    /// `proxy-connection`.
    ProxyConnection,
    /// `keep-alive`.
    KeepAlive,
    /// `upgrade`.
    Upgrade,
    /// `http2-settings`.
    Http2Settings,
    /// `trailer`.
    Trailer,
    /// `te`.
    Te,
    /// `expect`.
    Expect,
    /// `forwarded`.
    Forwarded,
    /// `x-forwarded-for`.
    XForwardedFor,
    /// `x-forwarded-proto`.
    XForwardedProto,
    /// `x-forwarded-host`.
    XForwardedHost,
    /// `x-real-ip`.
    XRealIp,
    /// `cookie`.
    Cookie,
    /// `set-cookie`.
    SetCookie,
    /// `authorization`.
    Authorization,
    /// `proxy-authorization`.
    ProxyAuthorization,
    /// `proxy-authenticate`.
    ProxyAuthenticate,
    /// `max-forwards`.
    MaxForwards,
    /// `cache-control`.
    CacheControl,
    /// `if-match`.
    IfMatch,
    /// `if-none-match`.
    IfNoneMatch,
    /// `if-modified-since`.
    IfModifiedSince,
    /// `if-unmodified-since`.
    IfUnmodifiedSince,
    /// `if-range`.
    IfRange,
    /// `range`.
    Range,
    /// Any other name.
    Unknown,
}

/// Which known field a canonical name is.
pub open spec fn classify_spec(name: Seq<u8>) -> KnownHeader {
    if name == KnownHeader::Host.name_spec() {
        KnownHeader::Host
    } else if name == KnownHeader::ContentLength.name_spec() {
        KnownHeader::ContentLength
    } else if name == KnownHeader::TransferEncoding.name_spec() {
        KnownHeader::TransferEncoding
    } else if name == KnownHeader::Connection.name_spec() {
        KnownHeader::Connection
    } else if name == KnownHeader::ProxyConnection.name_spec() {
        KnownHeader::ProxyConnection
    } else if name == KnownHeader::KeepAlive.name_spec() {
        KnownHeader::KeepAlive
    } else if name == KnownHeader::Upgrade.name_spec() {
        KnownHeader::Upgrade
    } else if name == KnownHeader::Http2Settings.name_spec() {
        KnownHeader::Http2Settings
    } else if name == KnownHeader::Trailer.name_spec() {
        KnownHeader::Trailer
    } else if name == KnownHeader::Te.name_spec() {
        KnownHeader::Te
    } else if name == KnownHeader::Expect.name_spec() {
        KnownHeader::Expect
    } else if name == KnownHeader::Forwarded.name_spec() {
        KnownHeader::Forwarded
    } else if name == KnownHeader::XForwardedFor.name_spec() {
        KnownHeader::XForwardedFor
    } else if name == KnownHeader::XForwardedProto.name_spec() {
        KnownHeader::XForwardedProto
    } else if name == KnownHeader::XForwardedHost.name_spec() {
        KnownHeader::XForwardedHost
    } else if name == KnownHeader::XRealIp.name_spec() {
        KnownHeader::XRealIp
    } else if name == KnownHeader::Cookie.name_spec() {
        KnownHeader::Cookie
    } else if name == KnownHeader::SetCookie.name_spec() {
        KnownHeader::SetCookie
    } else if name == KnownHeader::Authorization.name_spec() {
        KnownHeader::Authorization
    } else if name == KnownHeader::ProxyAuthorization.name_spec() {
        KnownHeader::ProxyAuthorization
    } else if name == KnownHeader::ProxyAuthenticate.name_spec() {
        KnownHeader::ProxyAuthenticate
    } else if name == KnownHeader::MaxForwards.name_spec() {
        KnownHeader::MaxForwards
    } else if name == KnownHeader::CacheControl.name_spec() {
        KnownHeader::CacheControl
    } else if name == KnownHeader::IfMatch.name_spec() {
        KnownHeader::IfMatch
    } else if name == KnownHeader::IfNoneMatch.name_spec() {
        KnownHeader::IfNoneMatch
    } else if name == KnownHeader::IfModifiedSince.name_spec() {
        KnownHeader::IfModifiedSince
    } else if name == KnownHeader::IfUnmodifiedSince.name_spec() {
        KnownHeader::IfUnmodifiedSince
    } else if name == KnownHeader::IfRange.name_spec() {
        KnownHeader::IfRange
    } else if name == KnownHeader::Range.name_spec() {
        KnownHeader::Range
    } else {
        KnownHeader::Unknown
    }
}

/// Which known field a canonical name is.
#[must_use]
pub fn classify(name: &[u8]) -> (r: KnownHeader)
    ensures
        r == classify_spec(name@),
{
    if bytes_eq(name, KnownHeader::Host.as_bytes()) {
        KnownHeader::Host
    } else if bytes_eq(name, KnownHeader::ContentLength.as_bytes()) {
        KnownHeader::ContentLength
    } else if bytes_eq(name, KnownHeader::TransferEncoding.as_bytes()) {
        KnownHeader::TransferEncoding
    } else if bytes_eq(name, KnownHeader::Connection.as_bytes()) {
        KnownHeader::Connection
    } else if bytes_eq(name, KnownHeader::ProxyConnection.as_bytes()) {
        KnownHeader::ProxyConnection
    } else if bytes_eq(name, KnownHeader::KeepAlive.as_bytes()) {
        KnownHeader::KeepAlive
    } else if bytes_eq(name, KnownHeader::Upgrade.as_bytes()) {
        KnownHeader::Upgrade
    } else if bytes_eq(name, KnownHeader::Http2Settings.as_bytes()) {
        KnownHeader::Http2Settings
    } else if bytes_eq(name, KnownHeader::Trailer.as_bytes()) {
        KnownHeader::Trailer
    } else if bytes_eq(name, KnownHeader::Te.as_bytes()) {
        KnownHeader::Te
    } else if bytes_eq(name, KnownHeader::Expect.as_bytes()) {
        KnownHeader::Expect
    } else if bytes_eq(name, KnownHeader::Forwarded.as_bytes()) {
        KnownHeader::Forwarded
    } else if bytes_eq(name, KnownHeader::XForwardedFor.as_bytes()) {
        KnownHeader::XForwardedFor
    } else if bytes_eq(name, KnownHeader::XForwardedProto.as_bytes()) {
        KnownHeader::XForwardedProto
    } else if bytes_eq(name, KnownHeader::XForwardedHost.as_bytes()) {
        KnownHeader::XForwardedHost
    } else if bytes_eq(name, KnownHeader::XRealIp.as_bytes()) {
        KnownHeader::XRealIp
    } else if bytes_eq(name, KnownHeader::Cookie.as_bytes()) {
        KnownHeader::Cookie
    } else if bytes_eq(name, KnownHeader::SetCookie.as_bytes()) {
        KnownHeader::SetCookie
    } else if bytes_eq(name, KnownHeader::Authorization.as_bytes()) {
        KnownHeader::Authorization
    } else if bytes_eq(name, KnownHeader::ProxyAuthorization.as_bytes()) {
        KnownHeader::ProxyAuthorization
    } else if bytes_eq(name, KnownHeader::ProxyAuthenticate.as_bytes()) {
        KnownHeader::ProxyAuthenticate
    } else if bytes_eq(name, KnownHeader::MaxForwards.as_bytes()) {
        KnownHeader::MaxForwards
    } else if bytes_eq(name, KnownHeader::CacheControl.as_bytes()) {
        KnownHeader::CacheControl
    } else if bytes_eq(name, KnownHeader::IfMatch.as_bytes()) {
        KnownHeader::IfMatch
    } else if bytes_eq(name, KnownHeader::IfNoneMatch.as_bytes()) {
        KnownHeader::IfNoneMatch
    } else if bytes_eq(name, KnownHeader::IfModifiedSince.as_bytes()) {
        KnownHeader::IfModifiedSince
    } else if bytes_eq(name, KnownHeader::IfUnmodifiedSince.as_bytes()) {
        KnownHeader::IfUnmodifiedSince
    } else if bytes_eq(name, KnownHeader::IfRange.as_bytes()) {
        KnownHeader::IfRange
    } else if bytes_eq(name, KnownHeader::Range.as_bytes()) {
        KnownHeader::Range
    } else {
        KnownHeader::Unknown
    }
}

impl KnownHeader {
    /// The canonical name; empty for [`KnownHeader::Unknown`].
    pub open spec fn name_spec(self) -> Seq<u8> {
        match self {
            KnownHeader::Host => ascii("host"@),
            KnownHeader::ContentLength => ascii("content-length"@),
            KnownHeader::TransferEncoding => ascii("transfer-encoding"@),
            KnownHeader::Connection => ascii("connection"@),
            KnownHeader::ProxyConnection => ascii("proxy-connection"@),
            KnownHeader::KeepAlive => ascii("keep-alive"@),
            KnownHeader::Upgrade => ascii("upgrade"@),
            KnownHeader::Http2Settings => ascii("http2-settings"@),
            KnownHeader::Trailer => ascii("trailer"@),
            KnownHeader::Te => ascii("te"@),
            KnownHeader::Expect => ascii("expect"@),
            KnownHeader::Forwarded => ascii("forwarded"@),
            KnownHeader::XForwardedFor => ascii("x-forwarded-for"@),
            KnownHeader::XForwardedProto => ascii("x-forwarded-proto"@),
            KnownHeader::XForwardedHost => ascii("x-forwarded-host"@),
            KnownHeader::XRealIp => ascii("x-real-ip"@),
            KnownHeader::Cookie => ascii("cookie"@),
            KnownHeader::SetCookie => ascii("set-cookie"@),
            KnownHeader::Authorization => ascii("authorization"@),
            KnownHeader::ProxyAuthorization => ascii("proxy-authorization"@),
            KnownHeader::ProxyAuthenticate => ascii("proxy-authenticate"@),
            KnownHeader::MaxForwards => ascii("max-forwards"@),
            KnownHeader::CacheControl => ascii("cache-control"@),
            KnownHeader::IfMatch => ascii("if-match"@),
            KnownHeader::IfNoneMatch => ascii("if-none-match"@),
            KnownHeader::IfModifiedSince => ascii("if-modified-since"@),
            KnownHeader::IfUnmodifiedSince => ascii("if-unmodified-since"@),
            KnownHeader::IfRange => ascii("if-range"@),
            KnownHeader::Range => ascii("range"@),
            KnownHeader::Unknown => Seq::empty(),
        }
    }

    /// The canonical name; empty for [`KnownHeader::Unknown`].
    #[must_use]
    pub fn as_bytes(self) -> (r: &'static [u8])
        ensures
            r@ == self.name_spec(),
    {
        match self {
            KnownHeader::Host => "host".as_bytes(),
            KnownHeader::ContentLength => "content-length".as_bytes(),
            KnownHeader::TransferEncoding => "transfer-encoding".as_bytes(),
            KnownHeader::Connection => "connection".as_bytes(),
            KnownHeader::ProxyConnection => "proxy-connection".as_bytes(),
            KnownHeader::KeepAlive => "keep-alive".as_bytes(),
            KnownHeader::Upgrade => "upgrade".as_bytes(),
            KnownHeader::Http2Settings => "http2-settings".as_bytes(),
            KnownHeader::Trailer => "trailer".as_bytes(),
            KnownHeader::Te => "te".as_bytes(),
            KnownHeader::Expect => "expect".as_bytes(),
            KnownHeader::Forwarded => "forwarded".as_bytes(),
            KnownHeader::XForwardedFor => "x-forwarded-for".as_bytes(),
            KnownHeader::XForwardedProto => "x-forwarded-proto".as_bytes(),
            KnownHeader::XForwardedHost => "x-forwarded-host".as_bytes(),
            KnownHeader::XRealIp => "x-real-ip".as_bytes(),
            KnownHeader::Cookie => "cookie".as_bytes(),
            KnownHeader::SetCookie => "set-cookie".as_bytes(),
            KnownHeader::Authorization => "authorization".as_bytes(),
            KnownHeader::ProxyAuthorization => "proxy-authorization".as_bytes(),
            KnownHeader::ProxyAuthenticate => "proxy-authenticate".as_bytes(),
            KnownHeader::MaxForwards => "max-forwards".as_bytes(),
            KnownHeader::CacheControl => "cache-control".as_bytes(),
            KnownHeader::IfMatch => "if-match".as_bytes(),
            KnownHeader::IfNoneMatch => "if-none-match".as_bytes(),
            KnownHeader::IfModifiedSince => "if-modified-since".as_bytes(),
            KnownHeader::IfUnmodifiedSince => "if-unmodified-since".as_bytes(),
            KnownHeader::IfRange => "if-range".as_bytes(),
            KnownHeader::Range => "range".as_bytes(),
            KnownHeader::Unknown => {
                let empty: &'static [u8] = &[];
                assert(empty@ =~= Seq::<u8>::empty());
                empty
            },
        }
    }
}

/// Enough of a name to tell it from every other.
spec fn name_key(s: Seq<u8>) -> (nat, u8, u8) {
    (s.len(), s[0], s[s.len() - 1])
}

/// The key of each known name, written out.
spec fn key_of(k: KnownHeader) -> (nat, u8, u8) {
    match k {
        KnownHeader::Host => (4, 'h' as u8, 't' as u8),
        KnownHeader::ContentLength => (14, 'c' as u8, 'h' as u8),
        KnownHeader::TransferEncoding => (17, 't' as u8, 'g' as u8),
        KnownHeader::Connection => (10, 'c' as u8, 'n' as u8),
        KnownHeader::ProxyConnection => (16, 'p' as u8, 'n' as u8),
        KnownHeader::KeepAlive => (10, 'k' as u8, 'e' as u8),
        KnownHeader::Upgrade => (7, 'u' as u8, 'e' as u8),
        KnownHeader::Http2Settings => (14, 'h' as u8, 's' as u8),
        KnownHeader::Trailer => (7, 't' as u8, 'r' as u8),
        KnownHeader::Te => (2, 't' as u8, 'e' as u8),
        KnownHeader::Expect => (6, 'e' as u8, 't' as u8),
        KnownHeader::Forwarded => (9, 'f' as u8, 'd' as u8),
        KnownHeader::XForwardedFor => (15, 'x' as u8, 'r' as u8),
        KnownHeader::XForwardedProto => (17, 'x' as u8, 'o' as u8),
        KnownHeader::XForwardedHost => (16, 'x' as u8, 't' as u8),
        KnownHeader::XRealIp => (9, 'x' as u8, 'p' as u8),
        KnownHeader::Cookie => (6, 'c' as u8, 'e' as u8),
        KnownHeader::SetCookie => (10, 's' as u8, 'e' as u8),
        KnownHeader::Authorization => (13, 'a' as u8, 'n' as u8),
        KnownHeader::ProxyAuthorization => (19, 'p' as u8, 'n' as u8),
        KnownHeader::ProxyAuthenticate => (18, 'p' as u8, 'e' as u8),
        KnownHeader::MaxForwards => (12, 'm' as u8, 's' as u8),
        KnownHeader::CacheControl => (13, 'c' as u8, 'l' as u8),
        KnownHeader::IfMatch => (8, 'i' as u8, 'h' as u8),
        KnownHeader::IfNoneMatch => (13, 'i' as u8, 'h' as u8),
        KnownHeader::IfModifiedSince => (17, 'i' as u8, 'e' as u8),
        KnownHeader::IfUnmodifiedSince => (19, 'i' as u8, 'e' as u8),
        KnownHeader::IfRange => (8, 'i' as u8, 'e' as u8),
        KnownHeader::Range => (5, 'r' as u8, 'e' as u8),
        KnownHeader::Unknown => (0, 0, 0),
    }
}

proof fn lemma_name_key(k: KnownHeader)
    requires
        !(k is Unknown),
    ensures
        name_key(k.name_spec()) == key_of(k),
        0 < k.name_spec().len() <= 19,
{
    match k {
        KnownHeader::Host => {
            reveal_strlit("host");
            lemma_ascii("host"@);
        },
        KnownHeader::ContentLength => {
            reveal_strlit("content-length");
            lemma_ascii("content-length"@);
        },
        KnownHeader::TransferEncoding => {
            reveal_strlit("transfer-encoding");
            lemma_ascii("transfer-encoding"@);
        },
        KnownHeader::Connection => {
            reveal_strlit("connection");
            lemma_ascii("connection"@);
        },
        KnownHeader::ProxyConnection => {
            reveal_strlit("proxy-connection");
            lemma_ascii("proxy-connection"@);
        },
        KnownHeader::KeepAlive => {
            reveal_strlit("keep-alive");
            lemma_ascii("keep-alive"@);
        },
        KnownHeader::Upgrade => {
            reveal_strlit("upgrade");
            lemma_ascii("upgrade"@);
        },
        KnownHeader::Http2Settings => {
            reveal_strlit("http2-settings");
            lemma_ascii("http2-settings"@);
        },
        KnownHeader::Trailer => {
            reveal_strlit("trailer");
            lemma_ascii("trailer"@);
        },
        KnownHeader::Te => {
            reveal_strlit("te");
            lemma_ascii("te"@);
        },
        KnownHeader::Expect => {
            reveal_strlit("expect");
            lemma_ascii("expect"@);
        },
        KnownHeader::Forwarded => {
            reveal_strlit("forwarded");
            lemma_ascii("forwarded"@);
        },
        KnownHeader::XForwardedFor => {
            reveal_strlit("x-forwarded-for");
            lemma_ascii("x-forwarded-for"@);
        },
        KnownHeader::XForwardedProto => {
            reveal_strlit("x-forwarded-proto");
            lemma_ascii("x-forwarded-proto"@);
        },
        KnownHeader::XForwardedHost => {
            reveal_strlit("x-forwarded-host");
            lemma_ascii("x-forwarded-host"@);
        },
        KnownHeader::XRealIp => {
            reveal_strlit("x-real-ip");
            lemma_ascii("x-real-ip"@);
        },
        KnownHeader::Cookie => {
            reveal_strlit("cookie");
            lemma_ascii("cookie"@);
        },
        KnownHeader::SetCookie => {
            reveal_strlit("set-cookie");
            lemma_ascii("set-cookie"@);
        },
        KnownHeader::Authorization => {
            reveal_strlit("authorization");
            lemma_ascii("authorization"@);
        },
        KnownHeader::ProxyAuthorization => {
            reveal_strlit("proxy-authorization");
            lemma_ascii("proxy-authorization"@);
        },
        KnownHeader::ProxyAuthenticate => {
            reveal_strlit("proxy-authenticate");
            lemma_ascii("proxy-authenticate"@);
        },
        KnownHeader::MaxForwards => {
            reveal_strlit("max-forwards");
            lemma_ascii("max-forwards"@);
        },
        KnownHeader::CacheControl => {
            reveal_strlit("cache-control");
            lemma_ascii("cache-control"@);
        },
        KnownHeader::IfMatch => {
            reveal_strlit("if-match");
            lemma_ascii("if-match"@);
        },
        KnownHeader::IfNoneMatch => {
            reveal_strlit("if-none-match");
            lemma_ascii("if-none-match"@);
        },
        KnownHeader::IfModifiedSince => {
            reveal_strlit("if-modified-since");
            lemma_ascii("if-modified-since"@);
        },
        KnownHeader::IfUnmodifiedSince => {
            reveal_strlit("if-unmodified-since");
            lemma_ascii("if-unmodified-since"@);
        },
        KnownHeader::IfRange => {
            reveal_strlit("if-range");
            lemma_ascii("if-range"@);
        },
        KnownHeader::Range => {
            reveal_strlit("range");
            lemma_ascii("range"@);
        },
        KnownHeader::Unknown => {},
    }
}

/// Two known fields have two names.
proof fn lemma_names_differ(a: KnownHeader, b: KnownHeader)
    requires
        a != b,
        !(a is Unknown),
    ensures
        a.name_spec() != b.name_spec(),
{
    lemma_name_key(a);
    if !(b is Unknown) {
        lemma_name_key(b);
    }
}

/// Every known field's canonical name is classified as that field.
pub proof fn law_classify_name(k: KnownHeader)
    requires
        !(k is Unknown),
    ensures
        classify_spec(k.name_spec()) == k,
        0 < k.name_spec().len() <= 19,
{
    lemma_name_key(k);
    assert forall|b: KnownHeader| b != k implies k.name_spec() != #[trigger] b.name_spec() by {
        lemma_names_differ(k, b);
    }
}

/// A name is classified as a known field only if it is that field's name.
pub proof fn law_classified_name(name: Seq<u8>)
    ensures
        !(classify_spec(name) is Unknown) ==> name == classify_spec(name).name_spec(),
{
}

/// No known name is longer than 19 bytes.
pub proof fn law_long_name_is_unknown(name: Seq<u8>)
    requires
        name.len() > 19,
    ensures
        classify_spec(name) is Unknown,
{
    if !(classify_spec(name) is Unknown) {
        lemma_name_key(classify_spec(name));
    }
}

} // verus!
