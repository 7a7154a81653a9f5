//! Parsing, validation and rendering of IPv4 CIDR notation
//! (`address/prefix-length`).
//!
//! [`address::Address`] is a 32-bit IPv4 address value with explicit
//! byte-order conversions; [`ipv4::CIDR`] pairs an address with a prefix
//! length in `[8, 32]`; [`error::SyntaxError`] carries the message of a
//! parse failure.

pub mod error;
pub mod text;
pub mod address;
pub mod ipv4;
