//! A verified core for a WireGuard metrics exporter.
//!
//! The library parses the raw dump emitted by the WireGuard control
//! interface into a structured snapshot, resolves operator-supplied
//! aliases for peer public keys, and folds successive snapshots into
//! monotonic counters and point-in-time gauges held in a Prometheus
//! registry.

pub mod alias;
pub mod metrics;
pub mod shim;
pub mod text;
pub mod wireguard;
