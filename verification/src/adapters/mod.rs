//! The places where the library reaches into other crates and into the parts
//! of the standard library that are taken on trust.

pub mod channel;
pub mod checksum;
pub mod clock;
pub mod random;
pub mod ranking;
pub mod rehash;
