//! Octet intervals, their textual form, and the batch enumerator built on them.

pub mod batches;
pub mod decimal;
pub mod enumeration;
pub mod ip_range;
pub mod ip_range_bounds;
