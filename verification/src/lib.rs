//! Zero-knowledge IP location proof library.
//!
//! Decides whether a 32-bit IPv4 address falls inside any of a set of
//! inclusive exclusion ranges, converts addresses to and from dotted-quad
//! text, resolves alpha-2 country codes to ISO 3166-1 numeric codes,
//! parses the cached GeoIP range dataset, encodes the public commitment
//! record in a canonical ABI byte layout, and packages proof fixtures.

pub mod address;
pub mod cache;
pub mod commitment;
pub mod countries;
pub mod evaluate;
pub mod fixture;
pub mod orchestrator;
pub mod ranges;
pub mod strutil;

pub use address::ip_to_u32;
pub use address::u32_to_ip;
pub use evaluate::is_excluded;
