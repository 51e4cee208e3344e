//! What the operations do, in terms of bytes and names written out, and how
//! calls of them relate.
pub mod addresses;
pub mod bodies;
pub mod chains;
pub mod chunks;
pub mod classes;
pub mod elements;
pub mod fields;
pub mod heads;
pub mod identity;
pub mod names;
pub mod paths;
pub mod quoting;
pub mod sent;
pub mod stripping;
pub mod targets;
pub mod writing;
