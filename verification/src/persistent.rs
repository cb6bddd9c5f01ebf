//! Bounded-path copy-on-write containers for published graph generations.

pub mod arena;
pub mod paged;
pub mod radix;
