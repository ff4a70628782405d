//! Joins by the nearest key.

pub mod mem;
