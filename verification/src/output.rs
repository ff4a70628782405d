//! Sinks of rows.

pub mod sync;

pub mod transaction;

pub mod upsert;
