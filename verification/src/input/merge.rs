//! The merge of two keyed sources into one source of merged items.

pub mod simple;

pub mod svc;
