//! Geo-location lookups in the QQWry (IPv4) and ZXInc IPDB (IPv4/IPv6)
//! database formats, and markup of IP addresses found in text.

pub mod bytes;
pub mod error;
pub mod ipv6wry;
pub mod markup;
pub mod qqwry;
pub mod text;

pub use error::DbError;
pub use ipv6wry::{IPv6WryParser, IpAddr};
pub use markup::{
    lookup_ip, transform_line, AsnRecord, CityRecord, GeoCache, IpFacts, IpMatcher,
    MarkupError, MaxmindRecord,
};
pub use qqwry::{IpLocation, QQWryParser};
