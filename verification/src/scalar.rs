//! The small values every message is made of: methods, schemes, versions and
//! status codes.
use crate::error::RejectReason;
use crate::limits::ClampedLimits;
use crate::text::{ascii, bytes_eq, digit, is_digit, is_lower, is_upper, upper};
use vstd::prelude::*;

verus! {

/// A byte of an RFC 9110 `token`.
pub open spec fn tchar(b: u8) -> bool {
    ||| is_digit(b)
    ||| is_upper(b)
    ||| is_lower(b)
    ||| b == '!' as u8
    ||| b == '#' as u8
    ||| b == '$' as u8
    ||| b == '%' as u8
    ||| b == '&' as u8
    ||| b == '\'' as u8
    ||| b == '*' as u8
    ||| b == '+' as u8
    ||| b == '-' as u8
    ||| b == '.' as u8
    ||| b == '^' as u8
    ||| b == '_' as u8
    ||| b == '`' as u8
    ||| b == '|' as u8
    ||| b == '~' as u8
}

/// Whether `b` may stand in a token.
#[must_use]
pub fn is_tchar(b: u8) -> (r: bool)
    ensures
        r == tchar(b),
{
    digit(b) || upper(b) || 'a' as u8 <= b && b <= 'z' as u8 || b == '!' as u8 || b == '#' as u8
        || b == '$' as u8 || b == '%' as u8 || b == '&' as u8 || b == '\'' as u8 || b == '*' as u8
        || b == '+' as u8 || b == '-' as u8 || b == '.' as u8 || b == '^' as u8 || b == '_' as u8
        || b == '`' as u8 || b == '|' as u8 || b == '~' as u8
}

/// Whether every byte of `s` may stand in a token.
pub open spec fn all_tchar(s: Seq<u8>) -> bool {
    forall|i: int| 0 <= i < s.len() ==> tchar(#[trigger] s[i])
}

/// Whether every byte of `s` may stand in a token.
#[must_use]
pub fn is_all_tchar(s: &[u8]) -> (r: bool)
    ensures
        r == all_tchar(s@),
{
    let mut i: usize = 0;
    while i < s.len()
        invariant
            i <= s@.len(),
            forall|j: int| 0 <= j < i ==> tchar(#[trigger] s@[j]),
        decreases s@.len() - i,
    {
        if !is_tchar(s[i]) {
            return false;
        }
        i += 1;
    }
    true
}

/// `http` or `https`.
#[derive(Copy, Clone, Debug, PartialEq, Eq, Hash, Structural)]
pub enum Scheme {
    Http,
    Https,
}

impl Scheme {
    pub open spec fn default_port_spec(self) -> u16 {
        match self {
            Scheme::Http => 80,
            Scheme::Https => 443,
        }
    }

    /// The port a URI of this scheme names when it names none.
    #[must_use]
    pub fn default_port(self) -> (r: u16)
        ensures
            r == self.default_port_spec(),
    {
        match self {
            Scheme::Http => 80,
            Scheme::Https => 443,
        }
    }

    pub open spec fn bytes_spec(self) -> Seq<u8> {
        match self {
            Scheme::Http => ascii("http"@),
            Scheme::Https => ascii("https"@),
        }
    }

    /// The scheme as it is written.
    #[must_use]
    pub fn as_bytes(self) -> (r: &'static [u8])
        ensures
            r@ == self.bytes_spec(),
    {
        match self {
            Scheme::Http => "http".as_bytes(),
            Scheme::Https => "https".as_bytes(),
        }
    }
}

/// The protocol version a message arrived under.
#[derive(Copy, Clone, Debug, PartialEq, Eq, Hash, Structural)]
pub enum WireVersion {
    Http10,
    Http11,
    H2,
    H3,
}

impl WireVersion {
    pub open spec fn is_multiplexed_spec(self) -> bool {
        self is H2 || self is H3
    }

    /// Whether one connection of this version carries many streams.
    #[must_use]
    pub fn is_multiplexed(self) -> (r: bool)
        ensures
            r == self.is_multiplexed_spec(),
    {
        match self {
            WireVersion::H2 | WireVersion::H3 => true,
            _ => false,
        }
    }
}

/// A response status, 100 to 599.
#[derive(Copy, Clone, Debug, PartialEq, Eq, Hash, Structural)]
pub struct StatusCode {
    code: u16,
}

impl View for StatusCode {
    type V = u16;

    closed spec fn view(&self) -> u16 {
        self.code
    }
}

impl StatusCode {
    #[verifier::type_invariant]
    closed spec fn inv(self) -> bool {
        100 <= self.code <= 599
    }

    /// The status with this number, if there is one.
    #[must_use]
    pub fn from_u16(code: u16) -> (r: Option<StatusCode>)
        ensures
            match r {
                Some(s) => 100 <= code <= 599 && s@ == code,
                None => !(100 <= code <= 599),
            },
    {
        if 100 <= code && code <= 599 {
            Some(StatusCode { code })
        } else {
            None
        }
    }

    pub(crate) fn known(code: u16) -> (r: StatusCode)
        requires
            100 <= code <= 599,
        ensures
            r@ == code,
    {
        StatusCode { code }
    }

    /// The status as a number.
    #[must_use]
    pub fn as_u16(self) -> (r: u16)
        ensures
            r == self@,
            100 <= r <= 599,
    {
        proof {
            use_type_invariant(&self);
        }
        self.code
    }
}

/// The outcome of parsing from a buffer that may not hold everything yet.
#[derive(Debug)]
pub enum ParseStatus<T> {
    /// More bytes are needed.
    Partial,
    /// A value was parsed from the first `consumed` bytes.
    Complete { value: T, consumed: usize },
}

impl<T> ParseStatus<T> {
    /// A complete parse of the first `consumed` of `buf_len` bytes.
    #[must_use]
    pub fn complete(value: T, consumed: usize, buf_len: usize) -> (r: ParseStatus<T>)
        requires
            consumed <= buf_len,
        ensures
            r == (ParseStatus::Complete { value, consumed }),
    {
        ParseStatus::Complete { value, consumed }
    }

    /// The value and the number of bytes it took, if the parse is complete.
    #[must_use]
    pub fn into_complete(self) -> (r: Option<(T, usize)>)
        ensures
            r == match self {
                ParseStatus::Partial => None,
                ParseStatus::Complete { value, consumed } => Some((value, consumed)),
            },
    {
        match self {
            ParseStatus::Partial => None,
            ParseStatus::Complete { value, consumed } => Some((value, consumed)),
        }
    }
}

/// A method token that is none of the named ones.
#[derive(Copy, Clone, Debug, PartialEq, Eq, Hash)]
pub struct ExtensionMethod {
    bytes: [u8; 32],
    len: usize,
}

impl View for ExtensionMethod {
    type V = Seq<u8>;

    closed spec fn view(&self) -> Seq<u8> {
        self.bytes@.take(self.len as int)
    }
}

impl ExtensionMethod {
    #[verifier::type_invariant]
    closed spec fn inv(self) -> bool {
        &&& 0 < self.len <= 32
        &&& all_tchar(self.bytes@.take(self.len as int))
        &&& named_method(self.bytes@.take(self.len as int)) is None
    }
}

/// A request method. Method names are case-sensitive: `get` is not `GET`.
#[derive(Copy, Clone, Debug, PartialEq, Eq, Hash)]
pub enum Method {
    Get,
    Head,
    Post,
    Put,
    Delete,
    Connect,
    Options,
    Trace,
    Patch,
    Extension(ExtensionMethod),
}

/// The named method that `raw` spells.
pub open spec fn named_method(raw: Seq<u8>) -> Option<Method> {
    if raw == ascii("GET"@) {
        Some(Method::Get)
    } else if raw == ascii("HEAD"@) {
        Some(Method::Head)
    } else if raw == ascii("POST"@) {
        Some(Method::Post)
    } else if raw == ascii("PUT"@) {
        Some(Method::Put)
    } else if raw == ascii("DELETE"@) {
        Some(Method::Delete)
    } else if raw == ascii("CONNECT"@) {
        Some(Method::Connect)
    } else if raw == ascii("OPTIONS"@) {
        Some(Method::Options)
    } else if raw == ascii("TRACE"@) {
        Some(Method::Trace)
    } else if raw == ascii("PATCH"@) {
        Some(Method::Patch)
    } else {
        None
    }
}

fn find_named(raw: &[u8]) -> (r: Option<Method>)
    ensures
        r == named_method(raw@),
{
    if bytes_eq(raw, "GET".as_bytes()) {
        Some(Method::Get)
    } else if bytes_eq(raw, "HEAD".as_bytes()) {
        Some(Method::Head)
    } else if bytes_eq(raw, "POST".as_bytes()) {
        Some(Method::Post)
    } else if bytes_eq(raw, "PUT".as_bytes()) {
        Some(Method::Put)
    } else if bytes_eq(raw, "DELETE".as_bytes()) {
        Some(Method::Delete)
    } else if bytes_eq(raw, "CONNECT".as_bytes()) {
        Some(Method::Connect)
    } else if bytes_eq(raw, "OPTIONS".as_bytes()) {
        Some(Method::Options)
    } else if bytes_eq(raw, "TRACE".as_bytes()) {
        Some(Method::Trace)
    } else if bytes_eq(raw, "PATCH".as_bytes()) {
        Some(Method::Patch)
    } else {
        None
    }
}

/// Why `raw` is no method, if it is none.
pub open spec fn method_error(raw: Seq<u8>, max_bytes: u32) -> Option<RejectReason> {
    if raw.len() == 0 {
        Some(RejectReason::MethodInvalid)
    } else if raw.len() > max_bytes {
        Some(RejectReason::MethodTooLong)
    } else if !all_tchar(raw) {
        Some(RejectReason::MethodInvalid)
    } else {
        None
    }
}

impl Method {
    /// The method as it is written.
    pub open spec fn bytes_spec(&self) -> Seq<u8> {
        match *self {
            Method::Get => ascii("GET"@),
            Method::Head => ascii("HEAD"@),
            Method::Post => ascii("POST"@),
            Method::Put => ascii("PUT"@),
            Method::Delete => ascii("DELETE"@),
            Method::Connect => ascii("CONNECT"@),
            Method::Options => ascii("OPTIONS"@),
            Method::Trace => ascii("TRACE"@),
            Method::Patch => ascii("PATCH"@),
            Method::Extension(e) => e@,
        }
    }

    /// Reads a method token. An empty token or one with a byte that is no
    /// `tchar` is `MethodInvalid`; one longer than the limit is
    /// `MethodTooLong`.
    pub fn parse(raw: &[u8], limits: &ClampedLimits) -> (r: Result<Method, RejectReason>)
        ensures
            match r {
                Ok(m) => method_error(raw@, limits@.max_method_bytes) is None && m.bytes_spec()
                    == raw@ && match named_method(raw@) {
                    Some(n) => m == n,
                    None => m is Extension,
                },
                Err(e) => method_error(raw@, limits@.max_method_bytes) == Some(e),
            },
    {
        let max: u32 = limits.get().max_method_bytes;
        if raw.len() == 0 {
            return Err(RejectReason::MethodInvalid);
        }
        if raw.len() > max as usize {
            return Err(RejectReason::MethodTooLong);
        }
        if !is_all_tchar(raw) {
            return Err(RejectReason::MethodInvalid);
        }
        if let Some(m) = find_named(raw) {
            return Ok(m);
        }
        let mut bytes: [u8; 32] = [0;32];
        let mut i: usize = 0;
        while i < raw.len()
            invariant
                i <= raw@.len() <= 32,
                bytes@.len() == 32,
                forall|j: int| 0 <= j < i ==> bytes@[j] == raw@[j],
            decreases raw@.len() - i,
        {
            bytes[i] = raw[i];
            i += 1;
        }
        assert(bytes@.take(raw@.len() as int) =~= raw@);
        Ok(Method::Extension(ExtensionMethod { bytes, len: raw.len() }))
    }

    /// The method as it is written.
    #[must_use]
    pub fn as_bytes(&self) -> (r: &[u8])
        ensures
            r@ == self.bytes_spec(),
    {
        match self {
            Method::Get => "GET".as_bytes(),
            Method::Head => "HEAD".as_bytes(),
            Method::Post => "POST".as_bytes(),
            Method::Put => "PUT".as_bytes(),
            Method::Delete => "DELETE".as_bytes(),
            Method::Connect => "CONNECT".as_bytes(),
            Method::Options => "OPTIONS".as_bytes(),
            Method::Trace => "TRACE".as_bytes(),
            Method::Patch => "PATCH".as_bytes(),
            Method::Extension(e) => {
                proof {
                    use_type_invariant(e);
                }
                vstd::slice::slice_subrange(e.bytes.as_slice(), 0, e.len)
            },
        }
    }

    /// Whether this is `CONNECT`.
    #[must_use]
    pub fn is_connect(&self) -> (r: bool)
        ensures
            r == (*self is Connect),
    {
        matches!(self, Method::Connect)
    }

    /// Whether this is `HEAD`.
    #[must_use]
    pub fn is_head(&self) -> (r: bool)
        ensures
            r == (*self is Head),
    {
        matches!(self, Method::Head)
    }

    /// Whether this is `OPTIONS`.
    #[must_use]
    pub fn is_options(&self) -> (r: bool)
        ensures
            r == (*self is Options),
    {
        matches!(self, Method::Options)
    }
}

} // verus!
