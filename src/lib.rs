//! Bit arithmetic and index permutations for power-of-two sized buffers.

pub mod arith;
pub mod reverse;
pub mod containers;
