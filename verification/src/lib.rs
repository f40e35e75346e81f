//! Verified core of a network traffic telemetry collector: per-interface and
//! per-source-address packet and byte counting, aggregation across CPUs,
//! sliding time-series windows, idle eviction and attach/detach bookkeeping.
//!
//! The packet path is in `program`, on the counter tables of `table`. The
//! aggregator is in `network_interface` and `ethernet`, over the tracked
//! state of `entity` and the windows of `series`. `context`, `view` and `app`
//! hold what the terminal program keeps and how keys and ticks change it.
//! Everything that touches the kernel or the terminal stays outside: the
//! library takes readings and outcomes as plain values and hands back what
//! is to be done.

pub mod app;
pub mod context;
pub mod counter;
pub mod entity;
pub mod ethernet;
pub mod frame;
pub mod key;
pub mod laws;
pub mod network_interface;
pub mod program;
pub mod series;
pub mod table;
pub mod view;
