//! Verified core of a network-coordinate simulator.
//!
//! Latencies between the nodes of a simulated network are predicted by
//! pairs of coordinate vectors that are learned from landmark measurements.
//! This crate holds the parts of that simulator whose behaviour can be
//! stated exactly: the ordering and clipping of single-precision values
//! (held as their IEEE-754 bit patterns), the error percentiles that the
//! training loop reports, the reader of the King latency matrix, and the
//! choice of landmarks for each node.

pub mod float_bits;
pub mod king;
pub mod measure;
pub mod nc;
pub mod network;
mod random;
pub mod stats;
