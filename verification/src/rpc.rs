//! The messages of the three services: select, upsert and checked drop.

pub mod source;

pub mod target;
