//! Rows decoded from lines of text.

pub mod json;
