//! Verified core of a TUN-based tunnelling daemon: packet framing, ICMP
//! replies with Internet checksums, connection reconciliation plans and the
//! small decision functions that the daemon's event loops run.
pub mod buffer;
pub mod config;
pub mod manager;
pub mod net;
pub mod network;
pub mod reconcile;
pub mod tun;
pub mod type_alias;
pub mod types;
