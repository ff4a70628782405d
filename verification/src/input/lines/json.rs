//! Rows decoded from lines of JSON.

pub mod sync;
