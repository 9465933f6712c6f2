//! Reconciliation of a static host table with the neighbour cache: IPv6
//! neighbours inherit the host name of the IPv4 neighbour that shares their
//! hardware address.

pub mod address;
pub mod hosts;
pub mod neighbour;
pub mod roundtrip;
pub mod table;
