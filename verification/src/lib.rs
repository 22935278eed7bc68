//! Naming and retention of timestamped filesystem snapshots.
//!
//! A snapshot is named after a prefix and the moment it was taken. The
//! retention engine reads those names back and decides which snapshots a
//! cleaning pass may delete.

pub mod namer;
pub mod pattern;
pub mod reading;
pub mod retention;
pub mod timestamp;
