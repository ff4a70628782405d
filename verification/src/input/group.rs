//! Operators that make one sequence of several.

pub mod paste;
