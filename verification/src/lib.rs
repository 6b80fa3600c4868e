//! Control the runtime state of CPUs through the kernel's sysfs control tree.
//!
//! This crate holds the verified core of a CPU hotplug control tool: the
//! CPU-list parser with its range normalization, the per-CPU state-transition
//! rules for enabling/disabling and configuring/deconfiguring, the batch
//! outcome aggregation, and the exact text of every message the tool emits.
//! The filesystem reads and writes themselves live outside the library and
//! hand it plain values.

pub mod batch;
pub mod control;
pub mod cpulist;
pub mod errors;
pub mod parse;
pub mod textnum;
