//! Compact, canonical, device-addressable structures of a labeled-property graph, with their proofs.

pub mod adjacency;
pub mod algorithms;
pub mod arith;
pub mod bytes;
pub mod cancel;
pub mod columns;
pub mod csr;
pub mod decimal;
pub mod digest;
pub mod error;
pub mod gpu;
pub mod index;
pub mod knowledge;
pub mod layers;
pub mod order;
pub mod persistent;
pub mod queue;
pub mod reach;
pub mod shared;
pub mod text;
pub mod transposition;
pub mod values;
