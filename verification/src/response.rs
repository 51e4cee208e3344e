//! Where the body of a response ends.
use crate::error::RejectReason;
use crate::field::{trim, trim_ows};
use crate::framing::{
    content_length, parse_content_length, te_result, te_tokens, tokenize_transfer_encoding,
    OtherCodings,
};
use crate::known::KnownHeader;
use crate::scalar::{Method, StatusCode, WireVersion};
use crate::section::{values_of, Field, FieldSection};
use vstd::prelude::*;

verus! {

/// Where a response body ends. Resolved once, on the way in.
#[derive(Copy, Clone, Debug, PartialEq, Eq, Structural)]
pub enum ResponseFraming {
    /// No body.
    Empty,
    /// Exactly `len` bytes follow; `len` is not zero.
    Exact {
        /// The declared body length in bytes.
        len: u64,
    },
    /// The protocol ends the body.
    Streamed,
    /// The end of the connection ends the body.
    UntilClose,
}

/// Whether the status and the request's method alone say that no body
/// follows: 1xx, 204 and 304, anything in answer to `HEAD`, and success in
/// answer to `CONNECT`.
pub open spec fn no_body(status: u16, method: Method) -> bool {
    ||| 100 <= status <= 199
    ||| status == 204
    ||| status == 304
    ||| method is Head
    ||| method is Connect && 200 <= status <= 299
}

/// The framing of a response with these fields.
pub open spec fn response_framing(
    status: u16,
    method: Method,
    version: WireVersion,
    fields: Seq<Field>,
    policy: OtherCodings,
) -> Result<ResponseFraming, RejectReason> {
    let lengths = values_of(fields, KnownHeader::ContentLength);
    let codings = values_of(fields, KnownHeader::TransferEncoding);
    if lengths.len() > 1 {
        Err(RejectReason::ContentLengthDuplicate)
    } else if codings.len() > 0 && lengths.len() > 0 {
        Err(RejectReason::TransferEncodingWithContentLength)
    } else if no_body(status, method) {
        Ok(ResponseFraming::Empty)
    } else if codings.len() > 0 {
        if version.is_multiplexed_spec() {
            Err(RejectReason::ConnectionSpecificField)
        } else if version is Http10 {
            Err(RejectReason::TransferEncodingOnHttp10)
        } else {
            match te_result(te_tokens(codings), policy) {
                Err(e) => Err(e),
                Ok(_) => Ok(ResponseFraming::Streamed),
            }
        }
    } else if lengths.len() > 0 {
        match content_length(trim(lengths[0])) {
            Err(e) => Err(e),
            Ok(len) => if len == 0 {
                Ok(ResponseFraming::Empty)
            } else {
                Ok(ResponseFraming::Exact { len })
            },
        }
    } else if version.is_multiplexed_spec() {
        Ok(ResponseFraming::Streamed)
    } else {
        Ok(ResponseFraming::UntilClose)
    }
}

/// Resolves the framing of a response to a request of this method.
pub fn resolve_response_framing(
    status: StatusCode,
    request_method: &Method,
    version: WireVersion,
    fields: &FieldSection,
    policy: OtherCodings,
) -> (r: Result<ResponseFraming, RejectReason>)
    ensures
        r == response_framing(status@, *request_method, version, fields@, policy),
{
    let code: u16 = status.as_u16();
    let lengths = fields.get_all_known(KnownHeader::ContentLength);
    let codings = fields.get_all_known(KnownHeader::TransferEncoding);
    if lengths.len() > 1 {
        return Err(RejectReason::ContentLengthDuplicate);
    }
    if codings.len() > 0 && lengths.len() > 0 {
        return Err(RejectReason::TransferEncodingWithContentLength);
    }
    if 100 <= code && code <= 199 || code == 204 || code == 304 || request_method.is_head()
        || request_method.is_connect() && 200 <= code && code <= 299 {
        return Ok(ResponseFraming::Empty);
    }
    if codings.len() > 0 {
        if version.is_multiplexed() {
            return Err(RejectReason::ConnectionSpecificField);
        }
        if matches!(version, WireVersion::Http10) {
            return Err(RejectReason::TransferEncodingOnHttp10);
        }
        let _codings = tokenize_transfer_encoding(codings.as_slice(), policy)?;
        return Ok(ResponseFraming::Streamed);
    }
    if lengths.len() > 0 {
        let len: u64 = parse_content_length(trim_ows(lengths[0]))?;
        if len == 0 {
            return Ok(ResponseFraming::Empty);
        }
        return Ok(ResponseFraming::Exact { len });
    }
    if version.is_multiplexed() {
        Ok(ResponseFraming::Streamed)
    } else {
        Ok(ResponseFraming::UntilClose)
    }
}

} // verus!
