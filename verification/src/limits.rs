//! The configurable limits and their hard ceilings.
use vstd::prelude::*;

verus! {

/// Limits on what one message may cost. A value of this type may hold
/// anything; the library takes limits only as [`ClampedLimits`].
#[derive(Copy, Clone, Debug, PartialEq, Eq, Structural)]
pub struct Limits {
    /// Bytes of an HTTP/1 request line or status line, with its CRLF.
    pub max_request_line_bytes: u32,
    /// Bytes of a header section, each field charged its name, its value and
    /// an overhead of 32.
    pub max_header_list_bytes: u32,
    /// Field lines of a header section.
    pub max_field_count: u32,
    /// Bytes of one field line.
    pub max_field_line_bytes: u32,
    /// Bytes of a method token.
    pub max_method_bytes: u32,
    /// Bytes of an authority.
    pub max_authority_bytes: u32,
    /// Bytes of a path.
    pub max_path_bytes: u32,
    /// Bytes of one chunk's extensions.
    pub max_chunk_ext_bytes: u32,
    /// Interim (1xx) responses relayed for one request.
    pub max_interim_responses: u32,
    /// Bytes of the interim responses relayed for one request.
    pub max_interim_bytes: u32,
    /// Elements of a forwarding chain.
    pub max_forwarded_elements: u32,
    /// Bytes of the field values that make up a forwarding chain.
    pub max_forwarded_bytes: u32,
}

/// The smaller of two limits.
pub open spec fn least(a: u32, b: u32) -> u32 {
    if a <= b {
        a
    } else {
        b
    }
}

fn min_u32(a: u32, b: u32) -> (r: u32)
    ensures
        r == least(a, b),
{
    if a <= b {
        a
    } else {
        b
    }
}

impl Default for Limits {
    fn default() -> (r: Limits)
        ensures
            r == Limits::default_spec(),
    {
        Limits {
            max_request_line_bytes: 8192,
            max_header_list_bytes: 65536,
            max_field_count: 100,
            max_field_line_bytes: 8192,
            max_method_bytes: 32,
            max_authority_bytes: 255,
            max_path_bytes: 8192,
            max_chunk_ext_bytes: 256,
            max_interim_responses: 5,
            max_interim_bytes: 16384,
            max_forwarded_elements: 32,
            max_forwarded_bytes: 4096,
        }
    }
}

impl Limits {
    /// The default limits.
    pub open spec fn default_spec() -> Limits {
        Limits {
            max_request_line_bytes: 8192,
            max_header_list_bytes: 65536,
            max_field_count: 100,
            max_field_line_bytes: 8192,
            max_method_bytes: 32,
            max_authority_bytes: 255,
            max_path_bytes: 8192,
            max_chunk_ext_bytes: 256,
            max_interim_responses: 5,
            max_interim_bytes: 16384,
            max_forwarded_elements: 32,
            max_forwarded_bytes: 4096,
        }
    }

    /// The hard ceilings. No configuration lifts a limit above these.
    pub open spec fn ceiling_spec() -> Limits {
        Limits {
            max_request_line_bytes: 65536,
            max_header_list_bytes: 1048576,
            max_field_count: 1000,
            max_field_line_bytes: 65536,
            max_method_bytes: 32,
            max_authority_bytes: 1024,
            max_path_bytes: 65536,
            max_chunk_ext_bytes: 4096,
            max_interim_responses: 1000,
            max_interim_bytes: 1048576,
            max_forwarded_elements: 256,
            max_forwarded_bytes: 65536,
        }
    }

    /// The hard ceilings.
    #[must_use]
    pub fn ceiling() -> (r: Limits)
        ensures
            r == Limits::ceiling_spec(),
    {
        Limits {
            max_request_line_bytes: 65536,
            max_header_list_bytes: 1048576,
            max_field_count: 1000,
            max_field_line_bytes: 65536,
            max_method_bytes: 32,
            max_authority_bytes: 1024,
            max_path_bytes: 65536,
            max_chunk_ext_bytes: 4096,
            max_interim_responses: 1000,
            max_interim_bytes: 1048576,
            max_forwarded_elements: 256,
            max_forwarded_bytes: 65536,
        }
    }

    /// Whether every limit is at most its counterpart in `other`.
    pub open spec fn within(self, other: Limits) -> bool {
        &&& self.max_request_line_bytes <= other.max_request_line_bytes
        &&& self.max_header_list_bytes <= other.max_header_list_bytes
        &&& self.max_field_count <= other.max_field_count
        &&& self.max_field_line_bytes <= other.max_field_line_bytes
        &&& self.max_method_bytes <= other.max_method_bytes
        &&& self.max_authority_bytes <= other.max_authority_bytes
        &&& self.max_path_bytes <= other.max_path_bytes
        &&& self.max_chunk_ext_bytes <= other.max_chunk_ext_bytes
        &&& self.max_interim_responses <= other.max_interim_responses
        &&& self.max_interim_bytes <= other.max_interim_bytes
        &&& self.max_forwarded_elements <= other.max_forwarded_elements
        &&& self.max_forwarded_bytes <= other.max_forwarded_bytes
    }

    /// Each limit, or its counterpart in `other` where that is smaller.
    pub open spec fn meet(self, other: Limits) -> Limits {
        Limits {
            max_request_line_bytes: least(
                self.max_request_line_bytes,
                other.max_request_line_bytes,
            ),
            max_header_list_bytes: least(self.max_header_list_bytes, other.max_header_list_bytes),
            max_field_count: least(self.max_field_count, other.max_field_count),
            max_field_line_bytes: least(self.max_field_line_bytes, other.max_field_line_bytes),
            max_method_bytes: least(self.max_method_bytes, other.max_method_bytes),
            max_authority_bytes: least(self.max_authority_bytes, other.max_authority_bytes),
            max_path_bytes: least(self.max_path_bytes, other.max_path_bytes),
            max_chunk_ext_bytes: least(self.max_chunk_ext_bytes, other.max_chunk_ext_bytes),
            max_interim_responses: least(self.max_interim_responses, other.max_interim_responses),
            max_interim_bytes: least(self.max_interim_bytes, other.max_interim_bytes),
            max_forwarded_elements: least(
                self.max_forwarded_elements,
                other.max_forwarded_elements,
            ),
            max_forwarded_bytes: least(self.max_forwarded_bytes, other.max_forwarded_bytes),
        }
    }

    /// These limits, each cut down to its ceiling.
    #[must_use]
    pub fn clamped(self) -> (r: ClampedLimits)
        ensures
            r@ == self.meet(Limits::ceiling_spec()),
    {
        let c = Limits::ceiling();
        ClampedLimits {
            inner: Limits {
                max_request_line_bytes: min_u32(
                    self.max_request_line_bytes,
                    c.max_request_line_bytes,
                ),
                max_header_list_bytes: min_u32(self.max_header_list_bytes, c.max_header_list_bytes),
                max_field_count: min_u32(self.max_field_count, c.max_field_count),
                max_field_line_bytes: min_u32(self.max_field_line_bytes, c.max_field_line_bytes),
                max_method_bytes: min_u32(self.max_method_bytes, c.max_method_bytes),
                max_authority_bytes: min_u32(self.max_authority_bytes, c.max_authority_bytes),
                max_path_bytes: min_u32(self.max_path_bytes, c.max_path_bytes),
                max_chunk_ext_bytes: min_u32(self.max_chunk_ext_bytes, c.max_chunk_ext_bytes),
                max_interim_responses: min_u32(self.max_interim_responses, c.max_interim_responses),
                max_interim_bytes: min_u32(self.max_interim_bytes, c.max_interim_bytes),
                max_forwarded_elements: min_u32(
                    self.max_forwarded_elements,
                    c.max_forwarded_elements,
                ),
                max_forwarded_bytes: min_u32(self.max_forwarded_bytes, c.max_forwarded_bytes),
            },
        }
    }
}

/// Limits that respect the hard ceilings. Only [`Limits::clamped`] makes one.
#[derive(Copy, Clone, Debug, PartialEq, Eq, Structural)]
pub struct ClampedLimits {
    inner: Limits,
}

impl View for ClampedLimits {
    type V = Limits;

    closed spec fn view(&self) -> Limits {
        self.inner
    }
}

impl ClampedLimits {
    #[verifier::type_invariant]
    closed spec fn inv(self) -> bool {
        self.inner.within(Limits::ceiling_spec())
    }

    /// The limits themselves.
    #[must_use]
    pub fn get(&self) -> (r: &Limits)
        ensures
            *r == self@,
            r.within(Limits::ceiling_spec()),
    {
        proof {
            use_type_invariant(self);
        }
        &self.inner
    }
}

} // verus!
