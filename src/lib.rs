//! Partitioned admission control: a fixed alphabet of request symbols is split
//! at random into groups, and each group gets its own rate quota.

pub mod protocol;
pub mod rate_limiter;
pub mod symbols;
