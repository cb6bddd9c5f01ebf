//! Admission rules of the device backends: shapes, scratch bytes, residency and fingerprints.

pub mod host;
pub mod kernels;
pub mod mutation;
pub mod residency;
pub mod shapes;
