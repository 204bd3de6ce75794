//! Locks for user tasks.

pub mod mutex;
