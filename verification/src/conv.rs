//! The workflows that move rows from a source to a target.

pub mod rpc;

pub mod s2t;
