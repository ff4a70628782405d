//! Sources of gzipped bytes, decoded.

pub mod gz_tokio;
