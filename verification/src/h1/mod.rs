//! HTTP/1 on the wire.
pub mod canonicalize;
pub mod chunk_laws;
pub mod chunked;
pub mod parser;
pub mod request_round_trip;
pub mod response_round_trip;
pub mod round_trip;
pub mod serialize;
pub mod split_laws;
pub mod trailer_laws;
