//! Mergeable summaries that estimate how many distinct items a stream holds.
//!
//! Two sketch families are provided, each with a union operator:
//! [`hll`] (HyperLogLog) and [`cpc`] (Compressed Probabilistic Counting).
//! A sketch never stores the items themselves: it stores what a 64-bit hash of
//! each item leaves behind, and it can be written to and read from a byte
//! buffer.
pub mod cpc;
pub mod error;
pub mod hash;
pub mod hll;
pub mod sort;
pub mod table;
pub mod text;
pub mod wire;
