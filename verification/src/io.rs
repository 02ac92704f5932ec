//! I/O on a device: patterns of reads, writes and skips.
pub mod pattern;
