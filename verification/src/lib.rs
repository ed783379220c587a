//! Endpoint parsing and address types for network client code.
//!
//! The crate offers two small primitives: a model of IP addresses and
//! socket addresses as plain values, and an [`endpoint::Endpoint`] type
//! that classifies textual and tuple connection targets without
//! performing any name resolution.

pub mod addr;
pub mod endpoint;
pub mod ip;
pub mod resolve;
pub mod text;

pub use addr::{IpAddr, Ipv4Addr, Ipv6Addr, SocketAddr};
pub use endpoint::{Endpoint, EndpointError, ToEndpoint};
pub use resolve::lookup_string;
