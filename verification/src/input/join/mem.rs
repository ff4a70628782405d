//! Joins over in-memory maps.

pub mod btree;
