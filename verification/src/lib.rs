//! HTTP/1 messages, brought into one canonical form and written from it.
//!
//! A head is parsed ([`h1::parser`]), turned into a canonical request or
//! response ([`h1::canonicalize`], [`canonical`]) and written for the next hop
//! ([`h1::serialize`]); a chunked body is decoded as it arrives
//! ([`h1::chunked`]). What is ambiguous is refused with a [`error::RejectReason`],
//! never repaired: the length of a body ([`framing`]), the authority
//! ([`authority`]), the path ([`path`]), the client behind a proxy
//! ([`forwarded`], [`peer`]).
//!
//! Contracts speak of byte sequences. A function named `law_..` states what
//! holds of several of them together.
pub mod addr_laws;
pub mod addr_text;
pub mod authority;
pub mod canonical;
pub mod chain_laws;
pub mod cidr;
pub mod error;
pub mod expect;
pub mod ext;
pub mod field;
pub mod forwarded;
pub mod framing;
pub mod h1;
pub mod hlist;
pub mod known;
pub mod laws;
pub mod limits;
pub mod net;
pub mod num;
pub mod path;
pub mod peer;
pub mod response;
pub mod scalar;
pub mod section;
pub mod strip;
pub mod text;
