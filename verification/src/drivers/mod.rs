//! Devices.

pub mod ide;
