//! Nearest-key joins over in-memory maps.

pub mod btree;

pub mod key;
