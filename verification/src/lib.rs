//! Keeps the unicast filter of an SR-IOV uplink in step with the bridge behind it.

pub mod graph;
pub mod keyed;
pub mod mac;
pub mod netlink;
pub mod order;
pub mod sync;
pub mod sysfs;
pub mod sysfs_laws;
pub mod text;
pub mod topology;

