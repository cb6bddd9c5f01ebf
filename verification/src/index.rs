//! Rebuildable equality, range, text, vector and IVF-PQ indexes.

pub mod access;
pub mod ann;
pub mod bitmap;
pub mod catalog;
pub mod device;
pub mod embeddings;
pub mod encode;
pub mod fulltext;
pub mod images;
pub mod keys;
pub mod maintenance;
pub mod nodes;
pub mod plan;
pub mod postings;
pub mod profile;
pub mod ranking;
pub mod rebuild;
pub mod scalar;
pub mod search;
pub mod statistics;
pub mod terms;
pub mod vectors;
