//! Per-address network status: DHCP lease records merged with IPv6
//! neighbor-discovery entries, keyed by hardware address.

pub mod error;
pub mod text;
pub mod address;
pub mod clock;
pub mod lease;
pub mod neighbor;
pub mod merge;
pub mod status;
pub mod laws;
