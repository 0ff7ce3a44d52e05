//! Disk-usage statistics for a directory tree.
//!
//! The library aggregates a stream of filesystem entry observations
//! (path, kind, size) into counters, a total byte count, per-directory
//! byte totals, and two bounded top-N selectors holding the largest
//! files and the largest directories seen during a scan.

pub mod cli;
pub mod scan;
pub mod util;
