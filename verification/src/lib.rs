//! Enumeration of IPv4 addresses inside a rectangular range, one inclusive
//! interval per octet, delivered in fixed-size batches.

pub mod ip;
