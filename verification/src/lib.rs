//! Succinct bit vectors: a packed bit array with rank, select and bounded
//! scans, a packed vector of fixed-width integers, and a two-level rank
//! index that answers rank queries with two lookups and a short scan.

pub mod bits;
pub mod bitvectors;
pub mod counting;
pub mod error;
pub mod int_vector;
pub mod rank_support;
