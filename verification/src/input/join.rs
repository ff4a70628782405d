//! Joins that hold one side in memory.

pub mod mem;
