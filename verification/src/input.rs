//! Sources of rows and the operators built on them.

pub mod source;

pub mod join;

pub mod conv;

pub mod group;

pub mod select;

pub mod rpc;

pub mod merge;

pub mod lines;

pub mod bin;
