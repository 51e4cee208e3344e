//! The `Expect` field, and the budget for interim responses.
//!
//! `Expect` is answered or forwarded only where its whole value is
//! `100-continue`; anything else is refused. Interim responses are charged
//! when they are received, whether or not they can be relayed.
use crate::error::RejectReason;
use crate::field::{trim, trim_ows};
use crate::hlist::{sat32, sat64};
use crate::known::KnownHeader;
use crate::limits::ClampedLimits;
use crate::scalar::WireVersion;
use crate::section::{values_of, Field, FieldSection};
use crate::text::{ascii, eq_ignore_case, lower_all};
use vstd::prelude::*;

verus! {

/// What to do about an inbound `Expect` field.
#[derive(Copy, Clone, Debug, PartialEq, Eq, Structural)]
pub enum ExpectAction {
    /// There is none.
    Absent,
    /// `100-continue`, and the body is streamed: forward the field.
    ForwardToUpstream,
    /// `100-continue`, and the body is buffered: answer it, and remove the
    /// field before forwarding.
    AnswerLocally,
}

/// What to do about the `Expect` field of these fields, if anything.
pub open spec fn expect_action(fields: Seq<Field>, will_buffer: bool) -> Result<
    ExpectAction,
    RejectReason,
> {
    let values = values_of(fields, KnownHeader::Expect);
    if values.len() == 0 {
        Ok(ExpectAction::Absent)
    } else if values.len() > 1 {
        Err(RejectReason::ExpectUnsupported)
    } else if lower_all(trim(values[0])) != lower_all(ascii("100-continue"@)) {
        Err(RejectReason::ExpectUnsupported)
    } else if will_buffer {
        Ok(ExpectAction::AnswerLocally)
    } else {
        Ok(ExpectAction::ForwardToUpstream)
    }
}

/// Decides what to do about an inbound `Expect` field. A duplicate, and any
/// value other than `100-continue`, is refused.
pub fn check_expect(fields: &FieldSection, will_buffer: bool) -> (r: Result<
    ExpectAction,
    RejectReason,
>)
    ensures
        r == expect_action(fields@, will_buffer),
{
    let v = match fields.get_unique_known(KnownHeader::Expect) {
        Err(_) => {
            return Err(RejectReason::ExpectUnsupported);
        },
        Ok(None) => {
            return Ok(ExpectAction::Absent);
        },
        Ok(Some(v)) => v,
    };
    if !eq_ignore_case(trim_ows(v), "100-continue".as_bytes()) {
        return Err(RejectReason::ExpectUnsupported);
    }
    if will_buffer {
        Ok(ExpectAction::AnswerLocally)
    } else {
        Ok(ExpectAction::ForwardToUpstream)
    }
}

/// The state of an [`InterimBudget`].
pub struct InterimView {
    pub count: u32,
    pub bytes: u64,
    pub max_count: u32,
    pub max_bytes: u64,
}

impl InterimView {
    /// What charging an interim head of this size answers.
    pub open spec fn charge_result(self, head_bytes: int) -> Result<(), RejectReason> {
        if sat32(self.count + 1) > self.max_count {
            Err(RejectReason::InterimResponseCountExceeded)
        } else if sat64(self.bytes + head_bytes) > self.max_bytes {
            Err(RejectReason::InterimResponseBytesExceeded)
        } else {
            Ok(())
        }
    }

    /// The budget after charging an interim head of this size. One over the
    /// count limit costs no bytes.
    pub open spec fn charged(self, head_bytes: int) -> InterimView {
        let count = sat32(self.count + 1);
        InterimView {
            count,
            bytes: if count > self.max_count {
                self.bytes
            } else {
                sat64(self.bytes + head_bytes)
            },
            ..self
        }
    }
}

/// Bounds the interim (1xx) responses received for one request. Not `Copy`:
/// charging a copy would leave the budget itself untouched.
#[derive(Debug)]
pub struct InterimBudget {
    count: u32,
    bytes: u64,
    max_count: u32,
    max_bytes: u64,
}

impl View for InterimBudget {
    type V = InterimView;

    closed spec fn view(&self) -> InterimView {
        InterimView {
            count: self.count,
            bytes: self.bytes,
            max_count: self.max_count,
            max_bytes: self.max_bytes,
        }
    }
}

impl Clone for InterimBudget {
    fn clone(&self) -> (r: Self)
        ensures
            r@ == self@,
    {
        InterimBudget {
            count: self.count,
            bytes: self.bytes,
            max_count: self.max_count,
            max_bytes: self.max_bytes,
        }
    }
}

impl InterimBudget {
    /// A budget from the configured limits.
    #[must_use]
    pub fn new(limits: &ClampedLimits) -> (r: Self)
        ensures
            r@ == (InterimView {
                count: 0,
                bytes: 0,
                max_count: limits@.max_interim_responses,
                max_bytes: limits@.max_interim_bytes as u64,
            }),
    {
        let l = limits.get();
        InterimBudget {
            count: 0,
            bytes: 0,
            max_count: l.max_interim_responses,
            max_bytes: l.max_interim_bytes as u64,
        }
    }

    /// Charges one received interim response by the size of its head.
    pub fn charge(&mut self, head_bytes: usize) -> (r: Result<(), RejectReason>)
        ensures
            final(self)@ == old(self)@.charged(head_bytes as int),
            r == old(self)@.charge_result(head_bytes as int),
    {
        self.count = self.count.saturating_add(1);
        if self.count > self.max_count {
            return Err(RejectReason::InterimResponseCountExceeded);
        }
        self.bytes = self.bytes.saturating_add(head_bytes as u64);
        if self.bytes > self.max_bytes {
            return Err(RejectReason::InterimResponseBytesExceeded);
        }
        Ok(())
    }

    /// Whether a client of this version may be sent a 1xx: HTTP/1.0 may not.
    #[must_use]
    pub fn may_relay(client_version: WireVersion) -> (r: bool)
        ensures
            r == !(client_version is Http10),
    {
        !matches!(client_version, WireVersion::Http10)
    }

    /// Interim responses charged so far.
    #[must_use]
    pub fn count(&self) -> (r: u32)
        ensures
            r == self@.count,
    {
        self.count
    }

    /// Interim bytes charged so far.
    #[must_use]
    pub fn bytes(&self) -> (r: u64)
        ensures
            r == self@.bytes,
    {
        self.bytes
    }
}

/// Once a charge has failed, every later charge fails.
pub proof fn law_failed_interim_stays_failed(b: InterimView, n: int, m: int)
    requires
        0 <= n,
        0 <= m,
        b.charge_result(n) is Err,
    ensures
        b.charged(n).charge_result(m) is Err,
{
}

/// While charges succeed, neither limit is passed.
pub proof fn law_interim_within_limits(b: InterimView, n: int)
    requires
        0 <= n,
        b.charge_result(n) is Ok,
    ensures
        b.charged(n).count <= b.max_count,
        b.charged(n).bytes <= b.max_bytes,
{
}

} // verus!
